//! Latencies in a sketch: a fixed number of slots, whose width grows with the
//! latency, so that what is reported is never off by more than one part in two
//! hundred and fifty-six.

use vstd::prelude::*;
use crate::client::outbox::Nanos;

verus! {

/// The slots of one bucket.
pub const SLOTS: u64 = 256;

/// The last bucket.
pub const MAX_BUCKET: usize = 56;

/// All slots.
pub const SLOT_COUNT: usize = 14592;

// ---------------------------------------------------------------------------
// Slots
// ---------------------------------------------------------------------------

/// The slot of a latency: two buckets of width one, and then each bucket covers
/// twice the range of the one before.
pub open spec fn slot_of(v: nat) -> nat
    decreases v,
{
    if v < 512 {
        v
    } else {
        256 + slot_of(v / 2)
    }
}

/// The smallest latency of a slot.
pub open spec fn slot_floor(k: nat) -> nat
    decreases k,
{
    if k < 512 {
        k
    } else {
        2 * slot_floor((k - 256) as nat)
    }
}

/// The width of a slot.
pub open spec fn slot_width(k: nat) -> nat
    decreases k,
{
    if k < 512 {
        1
    } else {
        2 * slot_width((k - 256) as nat)
    }
}

/// A latency lies in its slot.
pub proof fn law_slot_holds_value(v: nat)
    ensures
        slot_floor(slot_of(v)) <= v < slot_floor(slot_of(v)) + slot_width(slot_of(v)),
    decreases v,
{
    if v >= 512 {
        law_slot_holds_value(v / 2);
        lemma_slot_of_large(v / 2);
    }
}

proof fn lemma_slot_of_large(v: nat)
    requires
        v >= 256,
    ensures
        slot_of(v) >= 256,
{
}

/// What is reported of a latency is off by at most one part in two hundred and
/// fifty-six.
pub proof fn law_relative_error(v: nat)
    ensures
        slot_floor(slot_of(v)) <= v,
        v - slot_floor(slot_of(v)) <= v / 256,
        (v < 512 ==> slot_floor(slot_of(v)) == v),
{
    law_slot_holds_value(v);
    lemma_width(slot_of(v));
    let f = slot_floor(slot_of(v));
    let w = slot_width(slot_of(v));
    if v >= 512 {
        lemma_slot_of_large(v / 2);
        assert(256 * w <= f);
        assert(w <= v / 256);
    }
}

proof fn lemma_width(k: nat)
    ensures
        slot_width(k) >= 1,
        k >= 256 ==> 256 * slot_width(k) <= slot_floor(k),
    decreases k,
{
    if k >= 512 {
        lemma_width((k - 256) as nat);
    }
}

/// Larger latencies have larger slots.
pub proof fn law_slots_follow_values(v: nat, w: nat)
    requires
        v <= w,
    ensures
        slot_of(v) <= slot_of(w),
    decreases w,
{
    if w >= 512 {
        if v >= 512 {
            law_slots_follow_values(v / 2, w / 2);
        } else {
            lemma_slot_of_large(w / 2);
        }
    }
}

/// Larger slots have larger floors.
pub proof fn law_floors_rise(j: nat, k: nat)
    requires
        j < k,
    ensures
        slot_floor(j) < slot_floor(k),
    decreases k,
{
    if k >= 512 {
        if j >= 512 {
            law_floors_rise((j - 256) as nat, (k - 256) as nat);
        } else if k < 768 {
            assert(slot_floor((k - 256) as nat) == k - 256);
        } else {
            law_floors_rise(511, (k - 256) as nat);
        }
    }
}

/// The floor of a slot lies in the slot.
pub proof fn law_floor_is_in_slot(k: nat)
    ensures
        slot_of(slot_floor(k)) == k,
    decreases k,
{
    if k >= 512 {
        let j = (k - 256) as nat;
        law_floor_is_in_slot(j);
        lemma_floor_large(j);
        assert(2 * slot_floor(j) >= 512);
        assert((2 * slot_floor(j)) / 2 == slot_floor(j));
    }
}

proof fn lemma_floor_large(k: nat)
    requires
        k >= 256,
    ensures
        slot_floor(k) >= 256,
    decreases k,
{
    if k >= 512 {
        lemma_floor_large((k - 256) as nat);
    }
}

/// The bucket and the slot in it of a latency.
#[must_use]
pub fn locate(v: u64) -> (r: (usize, usize))
    ensures
        r.0 <= MAX_BUCKET,
        r.1 < SLOTS,
        r.0 * 256 + r.1 == slot_of(v as nat),
{
    if v < SLOTS {
        return (0, v as usize);
    }
    let mut bucket: usize = 1;
    let mut rest: u64 = v;
    let ghost mut bound: nat = 0x1_0000_0000_0000_0000;
    assert(pow_two(64) == 0x1_0000_0000_0000_0000) by {
        reveal_with_fuel(pow_two, 65);
    }
    while rest >= 512
        invariant
            256 <= rest < bound,
            1 <= bucket <= 56,
            bound == pow_two((65 - bucket) as nat),
            slot_of(v as nat) == 256 * (bucket - 1) + slot_of(rest as nat),
        decreases rest,
    {
        proof {
            if bucket == 56 {
                assert(pow_two(9) == 512) by {
                    reveal_with_fuel(pow_two, 10);
                }
            }
            assert(pow_two((65 - bucket) as nat) == 2 * pow_two((64 - bucket) as nat));
            bound = pow_two((64 - bucket) as nat);
        }
        rest = rest / 2;
        bucket = bucket + 1;
    }
    (bucket, (rest - SLOTS) as usize)
}

/// Two to the power of `n`.
spec fn pow_two(n: nat) -> nat
    decreases n,
{
    if n == 0 {
        1
    } else {
        2 * pow_two((n - 1) as nat)
    }
}

/// The smallest latency of a slot.
#[must_use]
pub fn bucket_value(bucket: usize, slot: usize) -> (r: u64)
    requires
        bucket <= MAX_BUCKET,
        slot < SLOTS,
    ensures
        r == slot_floor((bucket * 256 + slot) as nat),
{
    if bucket == 0 {
        return slot as u64;
    }
    let mut value: u64 = slot as u64 + SLOTS;
    let mut b: usize = 1;
    assert(slot_floor((256 + slot) as nat) == 256 + slot);
    assert(pow_two(9) == 512) by {
        reveal_with_fuel(pow_two, 10);
    }
    assert(pow_two(64) == 0x1_0000_0000_0000_0000) by {
        reveal_with_fuel(pow_two, 65);
    }
    while b < bucket
        invariant
            1 <= b <= bucket <= MAX_BUCKET,
            slot < SLOTS,
            value == slot_floor((b * 256 + slot) as nat),
            value < pow_two((b + 8) as nat),
            pow_two(64) == 0x1_0000_0000_0000_0000,
        decreases bucket - b,
    {
        proof {
            lemma_pow_two_rises((b + 9) as nat, 64);
            assert(pow_two((b + 9) as nat) == 2 * pow_two((b + 8) as nat));
            assert(((b + 1) * 256 + slot - 256) as nat == (b * 256 + slot) as nat);
        }
        value = value * 2;
        b = b + 1;
    }
    value
}

proof fn lemma_pow_two_rises(m: nat, n: nat)
    requires
        m <= n,
    ensures
        pow_two(m) <= pow_two(n),
    decreases n,
{
    if m < n {
        lemma_pow_two_rises(m, (n - 1) as nat);
    }
}

proof fn lemma_slot_bound(v: nat, n: nat)
    requires
        v < 512 * pow_two(n),
    ensures
        slot_of(v) < 256 * (n + 2),
    decreases n,
{
    if n == 0 {
        assert(pow_two(0) == 1);
    } else if v >= 512 {
        lemma_slot_bound(v / 2, (n - 1) as nat);
    }
}

proof fn lemma_slot_in_range(v: u64)
    ensures
        slot_of(v as nat) < SLOT_COUNT,
{
    assert(pow_two(55) == 0x80_0000_0000_0000) by {
        reveal_with_fuel(pow_two, 56);
    }
    lemma_slot_bound(v as nat, 55);
}

// ---------------------------------------------------------------------------
// Counting
// ---------------------------------------------------------------------------

/// How many samples lie in a slot.
pub open spec fn count_at(samples: Seq<u64>, k: nat) -> nat
    decreases samples.len(),
{
    if samples.len() == 0 {
        0
    } else {
        count_at(samples.drop_last(), k) + if slot_of(samples.last() as nat) == k {
            1nat
        } else {
            0nat
        }
    }
}

/// How many samples lie below a slot.
pub open spec fn count_below(samples: Seq<u64>, k: nat) -> nat
    decreases samples.len(),
{
    if samples.len() == 0 {
        0
    } else {
        count_below(samples.drop_last(), k) + if slot_of(samples.last() as nat) < k {
            1nat
        } else {
            0nat
        }
    }
}

/// The sum of samples.
pub open spec fn sum_of(samples: Seq<u64>) -> nat
    decreases samples.len(),
{
    if samples.len() == 0 {
        0
    } else {
        sum_of(samples.drop_last()) + samples.last() as nat
    }
}

/// The rank of a percentile among `n` samples: at least the first, at most the
/// last.
pub open spec fn rank_of(n: nat, pct: nat) -> nat {
    let r = (n * pct + 99) / 100;
    if r < 1 {
        1
    } else if r > n {
        n
    } else {
        r
    }
}

/// The sample of this rank lies in slot `k`.
pub open spec fn ranked_in(samples: Seq<u64>, rank: nat, k: nat) -> bool {
    count_below(samples, k) < rank <= count_below(samples, k + 1)
}

/// `m` is the smallest sample.
pub open spec fn is_least(samples: Seq<u64>, m: u64) -> bool {
    samples.contains(m) && forall|i: int| 0 <= i < samples.len() ==> m <= #[trigger] samples[i]
}

/// `m` is the largest sample.
pub open spec fn is_greatest(samples: Seq<u64>, m: u64) -> bool {
    samples.contains(m) && forall|i: int| 0 <= i < samples.len() ==> #[trigger] samples[i] <= m
}

proof fn lemma_count_step(samples: Seq<u64>, k: nat)
    ensures
        count_below(samples, k + 1) == count_below(samples, k) + count_at(samples, k),
    decreases samples.len(),
{
    if samples.len() > 0 {
        lemma_count_step(samples.drop_last(), k);
    }
}

proof fn lemma_count_bounds(samples: Seq<u64>, k: nat)
    ensures
        count_below(samples, k) <= samples.len(),
        count_at(samples, k) <= samples.len(),
        count_below(samples, 0) == 0,
        k >= SLOT_COUNT ==> count_below(samples, k) == samples.len(),
    decreases samples.len(),
{
    if samples.len() > 0 {
        lemma_count_bounds(samples.drop_last(), k);
        lemma_slot_in_range(samples.last());
    }
}

proof fn lemma_count_below_rises(samples: Seq<u64>, j: nat, k: nat)
    requires
        j <= k,
    ensures
        count_below(samples, j) <= count_below(samples, k),
    decreases samples.len(),
{
    if samples.len() > 0 {
        lemma_count_below_rises(samples.drop_last(), j, k);
    }
}

proof fn lemma_sum_bound(samples: Seq<u64>)
    ensures
        sum_of(samples) <= samples.len() * u64::MAX,
    decreases samples.len(),
{
    if samples.len() > 0 {
        lemma_sum_bound(samples.drop_last());
        let n = samples.len();
        assert(n * u64::MAX == (n - 1) * u64::MAX + u64::MAX) by (nonlinear_arith)
            requires
                n >= 1,
        ;
    }
}

proof fn lemma_count_below_multiset(samples: Seq<u64>, k: nat)
    ensures
        count_below(samples, k) == samples.to_multiset().filter(
            |v: u64| slot_of(v as nat) < k,
        ).len(),
    decreases samples.len(),
{
    broadcast use {
        vstd::multiset::group_multiset_axioms,
        vstd::seq_lib::group_to_multiset_ensures,
    };

    let f = |v: u64| slot_of(v as nat) < k;
    if samples.len() == 0 {
        assert(samples.to_multiset().filter(f) =~= vstd::multiset::Multiset::<u64>::empty());
    } else {
        let t = samples.drop_last();
        let last = samples.last();
        lemma_count_below_multiset(t, k);
        assert(samples =~= t.push(last));
        assert(samples.to_multiset() =~= t.to_multiset().insert(last));
        if f(last) {
            assert(samples.to_multiset().filter(f) =~= t.to_multiset().filter(f).insert(last));
        } else {
            assert(samples.to_multiset().filter(f) =~= t.to_multiset().filter(f));
        }
    }
}

/// The slot of a rank is the slot of the sample that has this rank when the
/// samples are sorted.
pub proof fn law_rank_in_sorted_samples(samples: Seq<u64>, sorted: Seq<u64>, rank: nat, k: nat)
    requires
        samples.to_multiset() == sorted.to_multiset(),
        forall|i: int, j: int| 0 <= i <= j < sorted.len() ==> sorted[i] <= sorted[j],
        1 <= rank <= sorted.len(),
        ranked_in(samples, rank, k),
    ensures
        k == slot_of(sorted[rank - 1] as nat),
{
    lemma_count_below_multiset(samples, k);
    lemma_count_below_multiset(sorted, k);
    lemma_count_below_multiset(samples, k + 1);
    lemma_count_below_multiset(sorted, k + 1);
    let v = sorted[rank - 1];
    let own = slot_of(v as nat);
    if own < k {
        // All samples up to the rank lie below the slot.
        lemma_prefix_below(sorted, rank, k);
    }
    if own > k {
        lemma_suffix_not_below(sorted, rank, k + 1);
    }
}

proof fn lemma_prefix_below(sorted: Seq<u64>, rank: nat, k: nat)
    requires
        forall|i: int, j: int| 0 <= i <= j < sorted.len() ==> sorted[i] <= sorted[j],
        1 <= rank <= sorted.len(),
        slot_of(sorted[rank - 1] as nat) < k,
    ensures
        count_below(sorted, k) >= rank,
    decreases sorted.len(),
{
    let t = sorted.drop_last();
    if rank == sorted.len() {
        if rank > 1 {
            law_slots_follow_values(sorted[rank - 2] as nat, sorted[rank - 1] as nat);
            assert(t[rank - 2] == sorted[rank - 2]);
            lemma_prefix_below(t, (rank - 1) as nat, k);
        }
    } else {
        assert(t[rank - 1] == sorted[rank - 1]);
        lemma_prefix_below(t, rank, k);
    }
}

proof fn lemma_suffix_not_below(sorted: Seq<u64>, rank: nat, k: nat)
    requires
        forall|i: int, j: int| 0 <= i <= j < sorted.len() ==> sorted[i] <= sorted[j],
        1 <= rank <= sorted.len(),
        slot_of(sorted[rank - 1] as nat) >= k,
    ensures
        count_below(sorted, k) < rank,
    decreases sorted.len(),
{
    let t = sorted.drop_last();
    if rank == sorted.len() {
        lemma_count_bounds(t, k);
    } else {
        assert(t[rank - 1] == sorted[rank - 1]);
        lemma_suffix_not_below(t, rank, k);
        law_slots_follow_values(sorted[rank - 1] as nat, sorted.last() as nat);
    }
}

/// No two slots have the same rank, and a larger rank has no smaller slot: larger
/// percentiles are never reported as smaller.
pub proof fn law_ranks_follow_slots(samples: Seq<u64>, rank: nat, k: nat, rank2: nat, k2: nat)
    requires
        rank <= rank2,
        ranked_in(samples, rank, k),
        ranked_in(samples, rank2, k2),
    ensures
        k <= k2,
        slot_floor(k) <= slot_floor(k2),
{
    if k2 < k {
        lemma_count_below_rises(samples, k2 + 1, k);
    }
    if k < k2 {
        law_floors_rise(k, k2);
    }
}

/// A larger percentile has no smaller rank.
pub proof fn law_ranks_follow_percentiles(n: nat, pct: nat, pct2: nat)
    requires
        pct <= pct2,
    ensures
        rank_of(n, pct) <= rank_of(n, pct2),
{
    assert(n * pct <= n * pct2) by (nonlinear_arith)
        requires
            pct <= pct2,
    ;
    assert(n == 0 ==> n * pct2 == 0) by (nonlinear_arith);
}

/// What a sketch keeps of a stretch of time: one that is too long counts as the
/// longest.
pub open spec fn recorded(d: Nanos) -> u64 {
    if d <= u64::MAX {
        d as u64
    } else {
        u64::MAX
    }
}

/// Two collections of samples answer every question alike: how many there are,
/// their sum, the smallest, the largest, and in which slot a rank lies.
pub open spec fn answers_alike(a: Seq<u64>, b: Seq<u64>) -> bool {
    &&& a.len() == b.len()
    &&& sum_of(a) == sum_of(b)
    &&& forall|m: u64| #[trigger] is_least(a, m) == is_least(b, m)
    &&& forall|m: u64| #[trigger] is_greatest(a, m) == is_greatest(b, m)
    &&& forall|rank: nat, k: nat| #[trigger] ranked_in(a, rank, k) == ranked_in(b, rank, k)
}

proof fn lemma_sum_remove(s: Seq<u64>, j: int)
    requires
        0 <= j < s.len(),
    ensures
        sum_of(s) == sum_of(s.remove(j)) + s[j],
    decreases s.len(),
{
    if j == s.len() - 1 {
        assert(s.remove(j) =~= s.drop_last());
    } else {
        lemma_sum_remove(s.drop_last(), j);
        assert(s.remove(j).drop_last() =~= s.drop_last().remove(j));
    }
}

proof fn lemma_sum_multiset(a: Seq<u64>, b: Seq<u64>)
    requires
        a.to_multiset() == b.to_multiset(),
    ensures
        sum_of(a) == sum_of(b),
        a.len() == b.len(),
    decreases a.len(),
{
    broadcast use vstd::seq_lib::group_to_multiset_ensures;

    assert(a.len() == a.to_multiset().len());
    assert(b.len() == b.to_multiset().len());
    if a.len() > 0 {
        let n = a.len() - 1;
        let x = a[n];
        assert(a.contains(x));
        assert(b.to_multiset().count(x) > 0);
        assert(b.contains(x));
        let j = choose|j: int| 0 <= j < b.len() && b[j] == x;
        assert(a.remove(n) =~= a.drop_last());
        assert(a.drop_last().to_multiset() =~= b.remove(j).to_multiset());
        lemma_sum_multiset(a.drop_last(), b.remove(j));
        lemma_sum_remove(b, j);
    }
}

/// The order of samples does not matter, and two sketches that hold the same
/// samples go on answering alike when one takes in a stretch of time and the other
/// the nanoseconds of it.
pub proof fn law_record_is_record_ns(a: Seq<u64>, b: Seq<u64>, d: Nanos, ns: u64)
    requires
        a.to_multiset() == b.to_multiset(),
        ns == if d <= u64::MAX {
            d
        } else {
            u64::MAX as Nanos
        },
    ensures
        answers_alike(a, b),
        answers_alike(a.push(recorded(d)), b.push(ns)),
{
    broadcast use vstd::seq_lib::group_to_multiset_ensures;

    lemma_answers(a, b);
    assert(a.push(ns).to_multiset() =~= b.push(ns).to_multiset());
    lemma_answers(a.push(ns), b.push(ns));
}

proof fn lemma_answers(a: Seq<u64>, b: Seq<u64>)
    requires
        a.to_multiset() == b.to_multiset(),
    ensures
        answers_alike(a, b),
{
    broadcast use vstd::seq_lib::group_to_multiset_ensures;

    lemma_sum_multiset(a, b);
    assert forall|x: u64| #[trigger] a.contains(x) == b.contains(x) by {
        assert(a.contains(x) == (a.to_multiset().count(x) > 0));
        assert(b.contains(x) == (b.to_multiset().count(x) > 0));
    }
    assert forall|m: u64| #[trigger] is_least(a, m) == is_least(b, m) by {
        if is_least(a, m) {
            assert forall|i: int| 0 <= i < b.len() implies m <= #[trigger] b[i] by {
                assert(a.contains(b[i]));
            }
        }
        if is_least(b, m) {
            assert forall|i: int| 0 <= i < a.len() implies m <= #[trigger] a[i] by {
                assert(a.contains(a[i]));
            }
        }
    }
    assert forall|m: u64| #[trigger] is_greatest(a, m) == is_greatest(b, m) by {
        if is_greatest(a, m) {
            assert forall|i: int| 0 <= i < b.len() implies #[trigger] b[i] <= m by {
                assert(a.contains(b[i]));
            }
        }
        if is_greatest(b, m) {
            assert forall|i: int| 0 <= i < a.len() implies #[trigger] a[i] <= m by {
                assert(a.contains(a[i]));
            }
        }
    }
    assert forall|rank: nat, k: nat| #[trigger] ranked_in(a, rank, k) == ranked_in(b, rank, k) by {
        lemma_count_below_multiset(a, k);
        lemma_count_below_multiset(b, k);
        lemma_count_below_multiset(a, k + 1);
        lemma_count_below_multiset(b, k + 1);
    }
}

// ---------------------------------------------------------------------------
// The sketch
// ---------------------------------------------------------------------------

/// A sketch of latencies, in nanoseconds.
pub struct LatencyHist {
    counts: Vec<u64>,
    total: u64,
    min: u64,
    max: u64,
    sum_ns: u128,
    samples: Ghost<Seq<u64>>,
}

impl View for LatencyHist {
    type V = Seq<u64>;

    closed spec fn view(&self) -> Seq<u64> {
        self.samples@
    }
}

impl Default for LatencyHist {
    fn default() -> (r: Self)
        ensures
            r.wf(),
            r@ == Seq::<u64>::empty(),
    {
        Self::new()
    }
}

impl LatencyHist {
    /// The slots count the samples, and the rest of the sketch is what it says.
    pub closed spec fn wf(&self) -> bool {
        &&& self.counts@.len() == SLOT_COUNT
        &&& forall|k: int|
            0 <= k < SLOT_COUNT ==> #[trigger] self.counts@[k] == count_at(self@, k as nat)
        &&& self.total == self@.len()
        &&& self.sum_ns == sum_of(self@)
        &&& if self@.len() == 0 {
            self.min == u64::MAX && self.max == 0
        } else {
            is_least(self@, self.min) && is_greatest(self@, self.max)
        }
    }

    /// No samples.
    #[must_use]
    pub fn new() -> (r: Self)
        ensures
            r.wf(),
            r@ == Seq::<u64>::empty(),
    {
        let mut counts: Vec<u64> = Vec::new();
        let mut i: usize = 0;
        while i < SLOT_COUNT
            invariant
                i <= SLOT_COUNT,
                counts@.len() == i,
                forall|k: int| 0 <= k < i ==> #[trigger] counts@[k] == 0,
            decreases SLOT_COUNT - i,
        {
            counts.push(0);
            i = i + 1;
        }
        LatencyHist {
            counts,
            total: 0,
            min: u64::MAX,
            max: 0,
            sum_ns: 0,
            samples: Ghost(Seq::empty()),
        }
    }

    /// Takes in a sample in nanoseconds.
    pub fn record_ns(&mut self, ns: u64)
        requires
            old(self).wf(),
            old(self)@.len() < u64::MAX,
        ensures
            final(self).wf(),
            final(self)@ == old(self)@.push(ns),
    {
        let ghost before = self@;
        let ghost after = before.push(ns);
        let (bucket, slot) = locate(ns);
        let at: usize = bucket * 256 + slot;
        proof {
            lemma_slot_in_range(ns);
            lemma_count_bounds(before, at as nat);
            lemma_sum_bound(before);
            assert(before.len() * u64::MAX <= (u64::MAX - 1) * u64::MAX) by (nonlinear_arith)
                requires
                    before.len() <= u64::MAX - 1,
            ;
            assert(after.drop_last() =~= before);
        }
        self.counts.set(at, self.counts[at] + 1);
        self.total = self.total + 1;
        if ns < self.min {
            self.min = ns;
        }
        if ns > self.max {
            self.max = ns;
        }
        self.sum_ns = self.sum_ns + ns as u128;
        self.samples = Ghost(after);
        proof {
            assert(after[before.len() as int] == ns);
            assert(after.contains(ns));
            if before.len() > 0 {
                let lo = old(self).min;
                let hi = old(self).max;
                let i = choose|i: int| 0 <= i < before.len() && before[i] == lo;
                assert(after[i] == lo);
                let j = choose|j: int| 0 <= j < before.len() && before[j] == hi;
                assert(after[j] == hi);
            }
            assert forall|i: int| 0 <= i < after.len() implies self.min <= #[trigger] after[i]
                && after[i] <= self.max by {
                if i < before.len() {
                    assert(after[i] == before[i]);
                }
            }
        }
    }

    /// Takes in a sample; one that is too long counts as the longest.
    pub fn record(&mut self, d: Nanos)
        requires
            old(self).wf(),
            old(self)@.len() < u64::MAX,
        ensures
            final(self).wf(),
            final(self)@ == old(self)@.push(recorded(d)),
    {
        let ns: u64 = if d <= u64::MAX as u128 {
            d as u64
        } else {
            u64::MAX
        };
        self.record_ns(ns);
    }

    /// The smallest latency of the slot in which the sample of this percentile
    /// lies; zero without samples.
    #[must_use]
    pub fn percentile_ns(&self, pct: u64) -> (r: u64)
        requires
            self.wf(),
        ensures
            self@.len() == 0 ==> r == 0,
            self@.len() > 0 ==> exists|k: nat| #[trigger]
                ranked_in(self@, rank_of(self@.len(), pct as nat), k) && r == slot_floor(k),
    {
        if self.total == 0 {
            return 0;
        }
        let ghost s = self@;
        let n: u128 = self.total as u128;
        proof {
            assert(n * pct <= u64::MAX * u64::MAX) by (nonlinear_arith)
                requires
                    n <= u64::MAX,
                    pct <= u64::MAX,
            ;
        }
        let mut rank: u128 = (n * pct as u128 + 99) / 100;
        if rank < 1 {
            rank = 1;
        } else if rank > n {
            rank = n;
        }
        assert(rank == rank_of(s.len(), pct as nat));
        let mut seen: u128 = 0;
        let mut bucket: usize = 0;
        let mut slot: usize = 0;
        let mut i: usize = 0;
        proof {
            lemma_count_bounds(s, 0);
        }
        while i < SLOT_COUNT
            invariant
                i <= SLOT_COUNT,
                self.wf(),
                s == self@,
                1 <= rank <= s.len(),
                rank == rank_of(s.len(), pct as nat),
                seen == count_below(s, i as nat),
                seen < rank,
                i == bucket * 256 + slot,
                slot < 256,
                s.len() <= u64::MAX,
            decreases SLOT_COUNT - i,
        {
            proof {
                lemma_count_step(s, i as nat);
                lemma_count_bounds(s, i as nat);
            }
            seen = seen + self.counts[i] as u128;
            if seen >= rank {
                assert(ranked_in(s, rank as nat, i as nat));
                return bucket_value(bucket, slot);
            }
            i = i + 1;
            if slot == 255 {
                slot = 0;
                bucket = bucket + 1;
            } else {
                slot = slot + 1;
            }
        }
        proof {
            lemma_count_bounds(s, SLOT_COUNT as nat);
        }
        0
    }

    /// The smallest latency of the slot in which the sample of this percentile
    /// lies, as a stretch of time.
    #[must_use]
    pub fn percentile(&self, pct: u64) -> (r: Nanos)
        requires
            self.wf(),
        ensures
            self@.len() == 0 ==> r == 0,
            self@.len() > 0 ==> exists|k: nat| #[trigger]
                ranked_in(self@, rank_of(self@.len(), pct as nat), k) && r == slot_floor(k),
    {
        self.percentile_ns(pct) as u128
    }

    /// How many samples there are.
    #[must_use]
    pub fn count(&self) -> (r: u64)
        requires
            self.wf(),
        ensures
            r == self@.len(),
    {
        self.total
    }

    /// The smallest sample.
    #[must_use]
    pub fn min(&self) -> (r: Option<Nanos>)
        requires
            self.wf(),
        ensures
            match r {
                Some(m) => m <= u64::MAX && is_least(self@, m as u64),
                None => self@.len() == 0,
            },
    {
        if self.total > 0 {
            Some(self.min as u128)
        } else {
            None
        }
    }

    /// The largest sample.
    #[must_use]
    pub fn max(&self) -> (r: Option<Nanos>)
        requires
            self.wf(),
        ensures
            match r {
                Some(m) => m <= u64::MAX && is_greatest(self@, m as u64),
                None => self@.len() == 0,
            },
    {
        if self.total > 0 {
            Some(self.max as u128)
        } else {
            None
        }
    }

    /// The mean of the samples, rounded down.
    #[must_use]
    pub fn mean(&self) -> (r: Option<Nanos>)
        requires
            self.wf(),
        ensures
            match r {
                Some(m) => self@.len() > 0 && m == sum_of(self@) / self@.len(),
                None => self@.len() == 0,
            },
            r matches Some(m) ==> m == mean_of(self@),
    {
        if self.total == 0 {
            return None;
        }
        Some(self.sum_ns / self.total as u128)
    }

    /// How many samples each slot holds.
    #[must_use]
    pub fn slot_counts(&self) -> (r: &Vec<u64>)
        requires
            self.wf(),
        ensures
            r@.len() == SLOT_COUNT,
            forall|k: int|
                0 <= k < SLOT_COUNT ==> #[trigger] r@[k] == count_at(self@, k as nat),
            total_of(r@) == self@.len(),
    {
        proof {
            lemma_total(self.counts@, self@, SLOT_COUNT as nat);
            lemma_count_bounds(self@, SLOT_COUNT as nat);
            assert(self.counts@.take(SLOT_COUNT as int) =~= self.counts@);
        }
        &self.counts
    }
}

/// The sum of counts.
pub open spec fn total_of(counts: Seq<u64>) -> nat
    decreases counts.len(),
{
    if counts.len() == 0 {
        0
    } else {
        total_of(counts.drop_last()) + counts.last() as nat
    }
}

proof fn lemma_total(counts: Seq<u64>, samples: Seq<u64>, n: nat)
    requires
        n <= counts.len(),
        forall|k: int|
            0 <= k < counts.len() ==> #[trigger] counts[k] == count_at(samples, k as nat),
    ensures
        total_of(counts.take(n as int)) == count_below(samples, n),
    decreases n,
{
    if n == 0 {
        lemma_count_bounds(samples, 0);
    } else {
        lemma_total(counts, samples, (n - 1) as nat);
        lemma_count_step(samples, (n - 1) as nat);
        assert(counts.take(n as int).drop_last() =~= counts.take(n - 1));
        assert(counts.take(n as int).last() == counts[n - 1]);
    }
}

/// A source of samples for measurements that are to be repeated.
pub struct TestRng {
    state: u64,
}

/// The state after one more number was drawn.
pub open spec fn lcg_next(state: u64) -> u64 {
    ((state * 6364136223846793005 + 1442695040888963407) % 0x1_0000_0000_0000_0000) as u64
}

impl TestRng {
    /// The state.
    pub closed spec fn at(&self) -> u64 {
        self.state
    }

    /// The source of a seed.
    #[must_use]
    pub fn new(seed: u64) -> (r: Self)
        ensures
            r.at() == (seed + 0x9E37_79B9_7F4A_7C15) % 0x1_0000_0000_0000_0000,
    {
        TestRng { state: seed.wrapping_add(0x9E37_79B9_7F4A_7C15) }
    }

    /// Draws a number.
    pub fn next_u64(&mut self) -> (r: u64)
        ensures
            final(self).at() == lcg_next(old(self).at()),
            r == final(self).at() ^ (final(self).at() >> 33),
    {
        let s: u64 = self.state;
        self.state = s.wrapping_mul(6364136223846793005).wrapping_add(1442695040888963407);
        proof {
            let a = s * 6364136223846793005;
            let m = 0x1_0000_0000_0000_0000int;
            vstd::arithmetic::div_mod::lemma_add_mod_noop(a, 1442695040888963407, m);
        }
        self.state ^ (self.state >> 33)
    }
}

/// The rank of a percentile: that many of a hundred samples are not behind it, and
/// with one less they would be. It is the rank of a sample.
pub proof fn law_rank_covers_the_percentile(n: nat, pct: nat)
    requires
        n >= 1,
    ensures
        1 <= rank_of(n, pct) <= n,
        1 <= pct <= 100 ==> rank_of(n, pct) * 100 >= n * pct && (rank_of(n, pct) - 1) * 100 < n
            * pct,
        pct == 0 ==> rank_of(n, pct) == 1,
        pct >= 100 ==> rank_of(n, pct) == n,
{
    if 1 <= pct {
        assert(n * pct >= 1) by (nonlinear_arith)
            requires
                n >= 1,
                pct >= 1,
        ;
    }
    if pct <= 100 {
        assert(n * pct <= n * 100) by (nonlinear_arith)
            requires
                pct <= 100,
        ;
    } else {
        assert(n * pct >= n * 100) by (nonlinear_arith)
            requires
                pct >= 100,
        ;
    }
}

/// One sample more adds itself to the sum, and one to the count of its slot and to no
/// other.
pub proof fn law_sample_counts_once(samples: Seq<u64>, x: u64, k: nat)
    ensures
        sum_of(Seq::empty()) == 0,
        sum_of(samples.push(x)) == sum_of(samples) + x,
        count_at(samples.push(x), k) == count_at(samples, k) + if slot_of(x as nat) == k {
            1int
        } else {
            0
        },
        count_at(Seq::empty(), k) == 0,
{
    assert(samples.push(x).drop_last() =~= samples);
}

/// What a sketch keeps of a stretch of time is the time itself, unless it is too long.
pub proof fn law_recorded_is_the_time(d: Nanos)
    ensures
        d <= u64::MAX ==> recorded(d) == d,
        d > u64::MAX ==> recorded(d) == u64::MAX,
{
}

/// The mean of samples, rounded down.
pub open spec fn mean_of(samples: Seq<u64>) -> nat {
    sum_of(samples) / samples.len()
}

/// The mean is the sum shared among the samples, rounded down; it lies between any
/// bounds of them.
pub proof fn law_mean_shares_the_sum(samples: Seq<u64>, low: u64, high: u64)
    requires
        samples.len() > 0,
        forall|i: int| 0 <= i < samples.len() ==> low <= #[trigger] samples[i] <= high,
    ensures
        mean_of(samples) * samples.len() <= sum_of(samples) < (mean_of(samples) + 1) * samples.len(),
        low <= mean_of(samples) <= high,
{
    let n = samples.len();
    let x = sum_of(samples);
    let q = mean_of(samples);
    vstd::arithmetic::div_mod::lemma_fundamental_div_mod(x as int, n as int);
    assert(q * n <= x < (q + 1) * n) by (nonlinear_arith)
        requires
            x as int == n as int * (x as int / n as int) + x as int % n as int,
            0 <= x as int % (n as int) < n,
            q == x as int / n as int,
    ;
    lemma_sum_bounds(samples, low, high);
    assert(low <= q <= high) by (nonlinear_arith)
        requires
            q * n <= x < (q + 1) * n,
            low * n <= x <= high * n,
            n > 0,
    ;
}

proof fn lemma_sum_bounds(samples: Seq<u64>, low: u64, high: u64)
    requires
        forall|i: int| 0 <= i < samples.len() ==> low <= #[trigger] samples[i] <= high,
    ensures
        low * samples.len() <= sum_of(samples) <= high * samples.len(),
    decreases samples.len(),
{
    if samples.len() > 0 {
        let t = samples.drop_last();
        let n = t.len();
        assert forall|i: int| 0 <= i < t.len() implies low <= #[trigger] t[i] <= high by {
            assert(t[i] == samples[i]);
        }
        lemma_sum_bounds(t, low, high);
        assert(low <= samples[samples.len() - 1] <= high);
        assert(low * (n + 1) == low * n + low) by (nonlinear_arith);
        assert(high * (n + 1) == high * n + high) by (nonlinear_arith);
    }
}

} // verus!
