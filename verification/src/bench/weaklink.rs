//! A weak link that can be replayed: frames are dropped and delayed by numbers
//! that a seed determines. And the books of a measurement over it.

use std::collections::{HashMap, HashSet};
use vstd::prelude::*;
use crate::bench::format::{fmt_secs, span_text};
use crate::bench::histogram::{
    LatencyHist, is_greatest, law_rank_covers_the_percentile, law_rank_in_sorted_samples, rank_of,
    ranked_in, slot_floor, slot_of,
};
use crate::client::event::{ClientEvent, EventModel};
use crate::client::message::MsgModel;
use crate::client::outbox::Nanos;
use crate::protocol::frame::Cmd;
use crate::text::{decimal, push_decimal, push_two_digits, two_digits};

verus! {

broadcast use vstd::std_specs::hash::group_hash_axioms;

// ---------------------------------------------------------------------------
// Numbers
// ---------------------------------------------------------------------------

/// A source of numbers: cheap, even, and the same for the same seed.
pub struct XorShift {
    state: u64,
}

/// The state that a seed stands for: zero, from which nothing would follow, is
/// replaced.
pub open spec fn seeded(seed: u64) -> u64 {
    if seed == 0 {
        0x9E37_79B9_7F4A_7C15
    } else {
        seed
    }
}

/// The state after one more number was drawn.
pub open spec fn shifted(x: u64) -> u64 {
    let a = x ^ (x >> 12);
    let b = a ^ (a << 25);
    b ^ (b >> 27)
}

/// The number that a state gives.
pub open spec fn scrambled(x: u64) -> u64 {
    ((x * 0x2545_F491_4F6C_DD1D) % 0x1_0000_0000_0000_0000) as u64
}

/// A number below `n` made of any number; zero where nothing is below `n`.
pub open spec fn reduced(x: u64, n: u64) -> u64 {
    if n == 0 {
        0
    } else {
        x % n
    }
}

/// A state that is not zero stays so, and gives a number that is not zero.
pub proof fn law_source_never_dies(x: u64)
    requires
        x != 0,
    ensures
        shifted(x) != 0,
        scrambled(shifted(x)) != 0,
{
    let a = x ^ (x >> 12);
    let b = a ^ (a << 25);
    let c = b ^ (b >> 27);
    assert(a != 0) by (bit_vector)
        requires
            x != 0,
            a == x ^ (x >> 12),
    ;
    assert(b != 0) by (bit_vector)
        requires
            a != 0,
            b == a ^ (a << 25),
    ;
    assert(c != 0) by (bit_vector)
        requires
            b != 0,
            c == b ^ (b >> 27),
    ;
    let k = 0x2545_F491_4F6C_DD1Dint;
    let inverse = 0x59071d96d81ecd35int;
    let m = 0x1_0000_0000_0000_0000int;
    if scrambled(c) == 0 {
        // The factor has an inverse, so only zero is scrambled to zero.
        let y = c as int * k;
        assert(y % m == 0);
        vstd::arithmetic::div_mod::lemma_mul_mod_noop_left(y, inverse, m);
        assert((y * inverse) % m == 0);
        assert(k * inverse == 0xcf65b3f17bf4a6b * m + 1);
        assert(y * inverse == c as int * (k * inverse)) by (nonlinear_arith)
            requires
                y == c as int * k,
        ;
        assert(c as int * (0xcf65b3f17bf4a6b * m + 1) == (c as int * 0xcf65b3f17bf4a6b) * m + c as int)
            by (nonlinear_arith);
        vstd::arithmetic::div_mod::lemma_mod_multiples_vanish(
            c as int * 0xcf65b3f17bf4a6b,
            c as int,
            m,
        );
        assert(m * (c as int * 0xcf65b3f17bf4a6b) == (c as int * 0xcf65b3f17bf4a6b) * m) by (nonlinear_arith);
    }
}

impl XorShift {
    /// The state.
    pub closed spec fn at(&self) -> u64 {
        self.state
    }

    /// The source of a seed.
    #[must_use]
    pub fn new(seed: u64) -> (r: Self)
        ensures
            r.at() == seeded(seed),
    {
        XorShift {
            state: if seed == 0 {
                0x9E37_79B9_7F4A_7C15
            } else {
                seed
            },
        }
    }

    /// Draws a number.
    pub fn next_u64(&mut self) -> (r: u64)
        ensures
            final(self).at() == shifted(old(self).at()),
            r == scrambled(final(self).at()),
            old(self).at() != 0 ==> final(self).at() != 0 && r != 0,
    {
        proof {
            if self.state != 0 {
                law_source_never_dies(self.state);
            }
        }
        let mut x: u64 = self.state;
        x = x ^ (x >> 12);
        x = x ^ (x << 25);
        x = x ^ (x >> 27);
        self.state = x;
        x.wrapping_mul(0x2545_F491_4F6C_DD1D)
    }

    /// Draws a number below `n`; zero where nothing is below `n`.
    pub fn below(&mut self, n: u64) -> (r: u64)
        ensures
            final(self).at() == shifted(old(self).at()),
            r == reduced(scrambled(final(self).at()), n),
            n > 0 ==> r < n,
            n == 0 ==> r == 0,
    {
        let x: u64 = self.next_u64();
        if n == 0 {
            0
        } else {
            x % n
        }
    }
}

// ---------------------------------------------------------------------------
// One direction of a link
// ---------------------------------------------------------------------------

/// One direction of a link.
#[derive(Debug, Clone, Copy, PartialEq, Eq, Structural)]
pub struct LinkCfg {
    /// How long every frame takes.
    pub delay: Nanos,
    /// How much longer a frame may take.
    pub jitter: Nanos,
    /// How many of a thousand frames are dropped.
    pub loss_permille: u32,
    /// The seed of the numbers.
    pub seed: u64,
}

/// The two directions of the `n`th connection.
pub open spec fn nth_links(up: LinkCfg, down: LinkCfg, n: u64) -> (LinkCfg, LinkCfg) {
    (LinkCfg { seed: up.seed ^ (n << 1), ..up }, LinkCfg { seed: down.seed ^ (n << 1) ^ 1, ..down })
}

/// Every connection has numbers of its own, and everything else of the link; if the two
/// directions have one seed, they have different numbers.
pub proof fn law_connections_have_numbers_of_their_own(
    up: LinkCfg,
    down: LinkCfg,
    n: u64,
    k: u64,
)
    requires
        n < 0x8000_0000_0000_0000,
        k < 0x8000_0000_0000_0000,
    ensures
        ({
            let (a, b) = nth_links(up, down, n);
            let (c, d) = nth_links(up, down, k);
            &&& a.delay == up.delay && a.jitter == up.jitter && a.loss_permille == up.loss_permille
            &&& b.delay == down.delay && b.jitter == down.jitter && b.loss_permille
                == down.loss_permille
            &&& n != k ==> a.seed != c.seed && b.seed != d.seed
            &&& up.seed == down.seed ==> a.seed != d.seed
        }),
{
    let x = up.seed;
    let y = down.seed;
    assert(n != k ==> x ^ (n << 1) != x ^ (k << 1)) by (bit_vector)
        requires
            n < 0x8000_0000_0000_0000,
            k < 0x8000_0000_0000_0000,
    ;
    assert(n != k ==> y ^ (n << 1) ^ 1 != y ^ (k << 1) ^ 1) by (bit_vector)
        requires
            n < 0x8000_0000_0000_0000,
            k < 0x8000_0000_0000_0000,
    ;
    assert(x ^ (n << 1) != x ^ (k << 1) ^ 1) by (bit_vector);
}

/// The two directions of the `n`th connection: each has numbers of its own.
#[must_use]
pub fn connection_links(up: LinkCfg, down: LinkCfg, n: u64) -> (r: (LinkCfg, LinkCfg))
    ensures
        r.0 == (LinkCfg { seed: up.seed ^ (n << 1), ..up }),
        r.1 == (LinkCfg { seed: down.seed ^ (n << 1) ^ 1, ..down }),
        r == nth_links(up, down, n),
{
    (
        LinkCfg { seed: up.seed ^ (n << 1), ..up },
        LinkCfg { seed: down.seed ^ (n << 1) ^ 1, ..down },
    )
}

/// The end of a link at which frames go in.
pub struct LinkIn {
    cfg: LinkCfg,
    rng: XorShift,
    dropped: u64,
    msg_seen: u64,
}

/// What a [`LinkIn`] holds.
#[verifier::ext_equal]
pub struct LinkModel {
    /// The link.
    pub cfg: LinkCfg,
    /// The state of its numbers.
    pub rng: u64,
    /// How many frames were dropped.
    pub dropped: u64,
    /// How many chat messages went in.
    pub msg_seen: u64,
}

impl View for LinkIn {
    type V = LinkModel;

    closed spec fn view(&self) -> LinkModel {
        LinkModel {
            cfg: self.cfg,
            rng: self.rng.at(),
            dropped: self.dropped,
            msg_seen: self.msg_seen,
        }
    }
}

/// One millisecond.
pub const MILLI: Nanos = 1_000_000;

/// The state of the numbers after it was decided whether a frame is dropped.
pub open spec fn after_loss(l: LinkModel) -> u64 {
    if l.cfg.loss_permille > 0 {
        shifted(l.rng)
    } else {
        l.rng
    }
}

/// Whether the next frame is dropped.
pub open spec fn loses(l: LinkModel) -> bool {
    l.cfg.loss_permille > 0 && reduced(scrambled(after_loss(l)), 1000) < l.cfg.loss_permille
}

/// The link after a frame went in.
pub open spec fn after_frame(l: LinkModel, is_msg: bool) -> LinkModel {
    let msg_seen = if is_msg {
        (l.msg_seen + 1) as u64
    } else {
        l.msg_seen
    };
    if loses(l) {
        LinkModel { rng: after_loss(l), dropped: (l.dropped + 1) as u64, msg_seen, ..l }
    } else if l.cfg.jitter == 0 {
        LinkModel { rng: after_loss(l), msg_seen, ..l }
    } else {
        LinkModel { rng: shifted(after_loss(l)), msg_seen, ..l }
    }
}

/// How much longer than every frame the next one takes.
pub open spec fn extra_delay(l: LinkModel) -> nat {
    if l.cfg.jitter == 0 {
        0
    } else {
        reduced(scrambled(shifted(after_loss(l))), (l.cfg.jitter / MILLI) as u64) as nat
            * MILLI as nat
    }
}

impl LinkIn {
    /// The link before its first frame.
    #[must_use]
    pub fn new(cfg: LinkCfg) -> (r: Self)
        ensures
            r@ == (LinkModel { cfg, rng: seeded(cfg.seed), dropped: 0, msg_seen: 0 }),
    {
        LinkIn { cfg, rng: XorShift::new(cfg.seed), dropped: 0, msg_seen: 0 }
    }

    /// A frame goes in at `now`: when it comes out, or nothing if it is dropped.
    pub fn pump_in(&mut self, cmd: Cmd, now: Nanos) -> (r: Option<Nanos>)
        requires
            old(self)@.cfg.jitter / MILLI <= u64::MAX,
            now + old(self)@.cfg.delay + old(self)@.cfg.jitter <= u128::MAX,
            old(self)@.dropped < u64::MAX,
            old(self)@.msg_seen < u64::MAX,
        ensures
            final(self)@ == after_frame(old(self)@, cmd == Cmd::Msg),
            match r {
                Some(ready) => !loses(old(self)@) && ready == now + old(self)@.cfg.delay
                    + extra_delay(old(self)@),
                None => loses(old(self)@),
            },
            r matches Some(ready) ==> now + old(self)@.cfg.delay <= ready <= now
                + old(self)@.cfg.delay + old(self)@.cfg.jitter,
    {
        if cmd == Cmd::Msg {
            self.msg_seen = self.msg_seen + 1;
        }
        if self.cfg.loss_permille > 0 {
            let draw: u64 = self.rng.below(1000);
            if draw < self.cfg.loss_permille as u64 {
                self.dropped = self.dropped + 1;
                return None;
            }
        }
        let extra: Nanos = if self.cfg.jitter == 0 {
            0
        } else {
            let jitter_ms: u64 = (self.cfg.jitter / MILLI) as u64;
            let ms: u64 = self.rng.below(jitter_ms);
            assert(ms <= jitter_ms);
            assert(jitter_ms * MILLI <= self.cfg.jitter);
            ms as u128 * MILLI
        };
        Some(now + self.cfg.delay + extra)
    }

    /// How many frames were dropped.
    #[must_use]
    pub fn dropped(&self) -> (r: u64)
        ensures
            r == self@.dropped,
    {
        self.dropped
    }

    /// How many chat messages went in.
    #[must_use]
    pub fn msg_seen(&self) -> (r: u64)
        ensures
            r == self@.msg_seen,
    {
        self.msg_seen
    }
}

/// A link that drops all frames drops every one.
pub proof fn law_black_hole(l: LinkModel)
    requires
        l.cfg.loss_permille >= 1000,
    ensures
        loses(l),
{
}

/// A link that drops none drops no frame, and one without jitter delays every
/// frame alike.
pub proof fn law_clear_link(l: LinkModel)
    ensures
        l.cfg.loss_permille == 0 ==> !loses(l),
        l.cfg.jitter == 0 ==> extra_delay(l) == 0,
{
}

/// Of two links with the same numbers, the one that loses more loses what the other
/// loses, and one thousandth more loses one more of the thousand numbers.
pub proof fn law_loss_follows_the_rate(l: LinkModel, more: LinkModel)
    requires
        l.rng == more.rng,
        0 < l.cfg.loss_permille,
        more.cfg.loss_permille == l.cfg.loss_permille + 1,
    ensures
        loses(l) ==> loses(more),
        loses(more) && !loses(l) <==> scrambled(shifted(l.rng)) % 1000 == l.cfg.loss_permille,
        l.cfg.loss_permille == 1 ==> (loses(l) <==> scrambled(shifted(l.rng)) % 1000 == 0),
{
}

/// A frame that is lost is counted, one that is not takes the delay of the link and
/// at most its jitter longer, in whole milliseconds that the next number gives; chat
/// messages are counted either way.
pub proof fn law_frame_on_a_link(l: LinkModel, is_msg: bool)
    requires
        l.dropped < u64::MAX,
        l.msg_seen < u64::MAX,
        l.cfg.jitter / MILLI <= u64::MAX,
    ensures
        ({
            let t = after_frame(l, is_msg);
            &&& t.cfg == l.cfg
            &&& t.dropped - l.dropped == if loses(l) {
                1int
            } else {
                0
            }
            &&& t.msg_seen - l.msg_seen == if is_msg {
                1int
            } else {
                0
            }
        }),
        extra_delay(l) % 1_000_000 == 0,
        extra_delay(l) <= l.cfg.jitter,
        l.cfg.jitter >= 1_000_000 ==> {
            &&& extra_delay(l) < l.cfg.jitter
            &&& (scrambled(shifted(after_loss(l))) - extra_delay(l) / 1_000_000) % (l.cfg.jitter
                / 1_000_000) as int == 0
        },
{
    let n = (l.cfg.jitter / MILLI) as u64;
    let x = scrambled(shifted(after_loss(l)));
    if l.cfg.jitter >= 1_000_000 {
        let y = x % n;
        assert(extra_delay(l) == y * 1_000_000);
        assert(extra_delay(l) / 1_000_000 == y);
        assert(y < n);
        vstd::arithmetic::div_mod::lemma_fundamental_div_mod(x as int, n as int);
        vstd::arithmetic::div_mod::lemma_mod_multiples_basic(x as int / n as int, n as int);
        assert(x - y == (x as int / n as int) * n as int) by (nonlinear_arith)
            requires
                x as int == n as int * (x as int / n as int) + x as int % n as int,
                y == x % n,
        ;
    }
}

// ---------------------------------------------------------------------------
// Frames on their way
// ---------------------------------------------------------------------------

/// Things that wait until they are due.
pub struct Schedule<T> {
    waiting: Vec<(Nanos, T)>,
}

/// Where the thing stands that comes out first: of those that are due first, the
/// one that went in first.
pub open spec fn first_due<T>(s: Seq<(Nanos, T)>) -> int
    decreases s.len(),
{
    if s.len() <= 1 {
        0
    } else {
        let i = first_due(s.drop_last());
        if s.last().0 < s[i].0 {
            s.len() - 1
        } else {
            i
        }
    }
}

/// What comes out first is due no later than anything else, and before all that
/// went in earlier.
pub proof fn law_first_due_is_least<T>(s: Seq<(Nanos, T)>)
    requires
        s.len() > 0,
    ensures
        0 <= first_due(s) < s.len(),
        forall|j: int| 0 <= j < s.len() ==> s[first_due(s)].0 <= (#[trigger] s[j]).0,
        forall|j: int| 0 <= j < first_due(s) ==> s[first_due(s)].0 < (#[trigger] s[j]).0,
    decreases s.len(),
{
    if s.len() > 1 {
        let t = s.drop_last();
        law_first_due_is_least(t);
        let i = first_due(t);
        assert(t[i] == s[i]);
        assert forall|j: int| 0 <= j < s.len() implies s[first_due(s)].0 <= (
        #[trigger] s[j]).0 by {
            if j < t.len() {
                assert(t[j] == s[j]);
            }
        }
        assert forall|j: int| 0 <= j < first_due(s) implies s[first_due(s)].0 < (
        #[trigger] s[j]).0 by {
            assert(t[j] == s[j]);
        }
    }
}

/// Things that are due in the order in which they went in come out in that order.
pub proof fn law_even_delay_keeps_order<T>(s: Seq<(Nanos, T)>)
    requires
        forall|i: int, j: int| 0 <= i <= j < s.len() ==> s[i].0 <= s[j].0,
    ensures
        first_due(s) == 0,
{
    if s.len() > 0 {
        law_first_due_is_least(s);
        if first_due(s) > 0 {
            assert(s[0].0 <= s[first_due(s)].0);
        }
    }
}

/// What the end of a link at which frames come out does next.
#[derive(Debug, Clone, Copy, PartialEq, Eq, Structural)]
pub enum PumpStep {
    /// Wait until this time, or for another frame.
    WaitUntil(Nanos),
    /// Wait for another frame.
    Receive,
    /// Stop: every frame came out and none will go in.
    Done,
}

impl<T> Schedule<T> {
    /// The things, in the order in which they went in, and when they are due.
    pub closed spec fn waiting(&self) -> Seq<(Nanos, T)> {
        self.waiting@
    }

    /// Nothing waits.
    #[must_use]
    pub fn new() -> (r: Self)
        ensures
            r.waiting() == Seq::<(Nanos, T)>::empty(),
    {
        Schedule { waiting: Vec::new() }
    }

    /// A thing goes in.
    pub fn push(&mut self, ready: Nanos, item: T)
        ensures
            final(self).waiting() == old(self).waiting().push((ready, item)),
    {
        self.waiting.push((ready, item));
    }

    fn position(&self) -> (r: usize)
        requires
            self.waiting().len() > 0,
        ensures
            r == first_due(self.waiting()),
            r < self.waiting().len(),
    {
        let ghost s = self.waiting@;
        let mut best: usize = 0;
        let mut i: usize = 1;
        assert(s.take(1).len() == 1);
        while i < self.waiting.len()
            invariant
                1 <= i <= self.waiting@.len(),
                s == self.waiting@,
                best < i,
                best == first_due(s.take(i as int)),
            decreases self.waiting@.len() - i,
        {
            proof {
                let t = s.take(i + 1);
                assert(t.drop_last() =~= s.take(i as int));
                assert(t.last() == s[i as int]);
                assert(t[best as int] == s[best as int]);
            }
            if self.waiting[i].0 < self.waiting[best].0 {
                best = i;
            }
            i = i + 1;
        }
        assert(s.take(i as int) =~= s);
        best
    }

    /// When the first thing is due.
    #[must_use]
    pub fn next_due(&self) -> (r: Option<Nanos>)
        ensures
            r == (if self.waiting().len() == 0 {
                None::<Nanos>
            } else {
                Some(self.waiting()[first_due(self.waiting())].0)
            }),
    {
        if self.waiting.len() == 0 {
            return None;
        }
        let at: usize = self.position();
        Some(self.waiting[at].0)
    }

    /// What comes out first.
    pub fn pop(&mut self) -> (r: Option<T>)
        ensures
            ({
                let s = old(self).waiting();
                if s.len() == 0 {
                    r is None && final(self).waiting() == s
                } else {
                    &&& r == Some(s[first_due(s)].1)
                    &&& final(self).waiting() == s.remove(first_due(s))
                }
            }),
    {
        if self.waiting.len() == 0 {
            return None;
        }
        let at: usize = self.position();
        let (_, item) = self.waiting.remove(at);
        Some(item)
    }

    /// What to do next; `open` says whether frames may still go in.
    #[must_use]
    pub fn pump_out(&self, open: bool) -> (r: PumpStep)
        ensures
            r == (if self.waiting().len() > 0 {
                PumpStep::WaitUntil(self.waiting()[first_due(self.waiting())].0)
            } else if open {
                PumpStep::Receive
            } else {
                PumpStep::Done
            }),
    {
        match self.next_due() {
            Some(due) => PumpStep::WaitUntil(due),
            None => if open {
                PumpStep::Receive
            } else {
                PumpStep::Done
            },
        }
    }
}

// ---------------------------------------------------------------------------
// The books of a measurement
// ---------------------------------------------------------------------------

/// The settings of a measurement over a weak link.
#[derive(Debug, Clone, Copy, PartialEq, Eq, Structural)]
pub struct WeakLinkArgs {
    /// How many messages are sent.
    pub messages: usize,
    /// How many of a thousand frames are dropped, each way.
    pub loss_permille: u32,
    /// How long a round trip takes, in milliseconds.
    pub rtt_ms: u64,
    /// How much longer a frame may take, in milliseconds.
    pub jitter_ms: u64,
    /// The seed of the numbers.
    pub seed: u64,
    /// The first wait before a message is sent again, in milliseconds.
    pub retry_timeout_ms: u64,
    /// How often a message is sent at most.
    pub retry_max_attempts: u32,
    /// How long the measurement may take, in seconds.
    pub deadline_secs: u64,
    /// How long a message is, in bytes.
    pub payload_bytes: usize,
}

/// Why a measurement cannot be made with these settings.
pub open spec fn settings_error(args: WeakLinkArgs) -> Option<Seq<char>> {
    if args.messages < 1 {
        Some("至少发一条消息"@)
    } else if args.loss_permille > 1000 {
        Some("丢包率不能超过 1000‰"@)
    } else {
        None
    }
}

/// The two directions of the link that settings ask for.
pub open spec fn links_of(args: WeakLinkArgs) -> (LinkCfg, LinkCfg) {
    let up = LinkCfg {
        delay: ((args.rtt_ms / 2) * MILLI) as u128,
        jitter: (args.jitter_ms * MILLI) as u128,
        loss_permille: args.loss_permille,
        seed: args.seed,
    };
    (up, LinkCfg { seed: args.seed ^ 0x5DEE_CE66, ..up })
}

/// A round trip takes as long as was asked for, but for the odd millisecond; both
/// directions lose as many frames and have the same jitter, and their numbers differ.
pub proof fn law_link_is_as_asked_for(args: WeakLinkArgs)
    ensures
        ({
            let (up, down) = links_of(args);
            &&& up.delay + down.delay == (args.rtt_ms - args.rtt_ms % 2) * 1_000_000
            &&& up.delay == down.delay
            &&& up.jitter == args.jitter_ms * 1_000_000 && down.jitter == up.jitter
            &&& up.loss_permille == args.loss_permille && down.loss_permille == args.loss_permille
            &&& up.seed == args.seed && down.seed != up.seed
        }),
{
    let x = args.seed;
    assert(x ^ 0x5DEE_CE66 != x) by (bit_vector);
}

/// The two directions of the link of a measurement.
pub fn weak_link(args: &WeakLinkArgs) -> (r: Result<(LinkCfg, LinkCfg), &'static str>)
    ensures
        match settings_error(*args) {
            Some(text) => r is Err && r->Err_0@ == text,
            None => {
                let up = LinkCfg {
                    delay: ((args.rtt_ms / 2) * MILLI) as u128,
                    jitter: (args.jitter_ms * MILLI) as u128,
                    loss_permille: args.loss_permille,
                    seed: args.seed,
                };
                r == Ok::<(LinkCfg, LinkCfg), &'static str>(
                    (up, LinkCfg { seed: args.seed ^ 0x5DEE_CE66, ..up }),
                )
            },
        },
        r matches Ok(links) ==> links == links_of(*args),
{
    if args.messages < 1 {
        return Err("至少发一条消息");
    }
    if args.loss_permille > 1000 {
        return Err("丢包率不能超过 1000‰");
    }
    let up = LinkCfg {
        delay: (args.rtt_ms / 2) as u128 * MILLI,
        jitter: args.jitter_ms as u128 * MILLI,
        loss_permille: args.loss_permille,
        seed: args.seed,
    };
    Ok((up, LinkCfg { seed: args.seed ^ 0x5DEE_CE66, ..up }))
}

/// Which of the two clients told something.
#[derive(Debug, Clone, Copy, PartialEq, Eq, Structural)]
pub enum Side {
    /// The one that sends.
    Alice,
    /// The one that receives.
    Bob,
}

/// Which of the two clients are connected.
#[derive(Debug, Clone, Copy, PartialEq, Eq, Structural)]
pub struct Readiness {
    /// The one that sends.
    pub alice: bool,
    /// The one that receives.
    pub bob: bool,
}

impl Readiness {
    /// Neither.
    #[must_use]
    pub fn new() -> (r: Self)
        ensures
            r == (Readiness { alice: false, bob: false }),
    {
        Readiness { alice: false, bob: false }
    }

    /// A client told something.
    pub fn on_event(&mut self, side: Side, event: &ClientEvent)
        ensures
            *final(self) == readier(*old(self), side, event@),
    {
        if let ClientEvent::Connected { .. } = event {
            match side {
                Side::Alice => {
                    self.alice = true;
                },
                Side::Bob => {
                    self.bob = true;
                },
            }
        }
    }

    /// Whether both are.
    #[must_use]
    pub fn complete(&self) -> (r: bool)
        ensures
            r == (self.alice && self.bob),
    {
        self.alice && self.bob
    }
}

/// The books of a measurement: when each message was born, which were confirmed,
/// given up and received, and how long those took.
pub struct Ledger {
    t0: HashMap<u64, Nanos>,
    acked: HashSet<u64>,
    failed: HashSet<u64>,
    received: HashSet<u64>,
    reconnects: u64,
    latency: LatencyHist,
    sent: usize,
}

/// What a [`Ledger`] holds.
#[verifier::ext_equal]
pub struct LedgerModel {
    /// When each message was born.
    pub t0: Map<u64, Nanos>,
    /// The messages that were confirmed.
    pub acked: Set<u64>,
    /// The messages that were given up.
    pub failed: Set<u64>,
    /// The messages that were received.
    pub received: Set<u64>,
    /// How often the sender lost its connection.
    pub reconnects: u64,
    /// How long the messages took that were received.
    pub latency: Seq<u64>,
    /// How many messages were sent.
    pub sent: usize,
}

impl View for Ledger {
    type V = LedgerModel;

    closed spec fn view(&self) -> LedgerModel {
        LedgerModel {
            t0: self.t0@,
            acked: self.acked@,
            failed: self.failed@,
            received: self.received@,
            reconnects: self.reconnects,
            latency: self.latency@,
            sent: self.sent,
        }
    }
}

/// How long a message took that was born at `born`, as the sketch has it.
pub open spec fn taken(born: Nanos, now: Nanos) -> u64 {
    if now <= born {
        0
    } else if now - born <= u64::MAX {
        (now - born) as u64
    } else {
        u64::MAX
    }
}

/// The books after a message was received: only one of this measurement counts,
/// and only once.
pub open spec fn after_receipt(m: LedgerModel, client_msg_id: u64, now: Nanos) -> LedgerModel {
    if m.t0.contains_key(client_msg_id) && !m.received.contains(client_msg_id) {
        LedgerModel {
            received: m.received.insert(client_msg_id),
            latency: m.latency.push(taken(m.t0[client_msg_id], now)),
            ..m
        }
    } else {
        m
    }
}

/// The books after a client told something. While the rest is `draining`, only
/// births and receipts count.
pub open spec fn after_told(
    m: LedgerModel,
    side: Side,
    event: EventModel,
    now: Nanos,
    draining: bool,
) -> LedgerModel {
    match (side, event) {
        (Side::Alice, EventModel::MessageQueued { client_msg_id, .. }) => LedgerModel {
            t0: m.t0.insert(client_msg_id, now),
            ..m
        },
        (Side::Bob, EventModel::Message(msg)) => after_receipt(m, msg.client_msg_id, now),
        (Side::Alice, EventModel::Ack { client_msg_id, .. }) => if draining {
            m
        } else {
            LedgerModel { acked: m.acked.insert(client_msg_id), ..m }
        },
        (Side::Alice, EventModel::SendFailed { client_msg_id }) => if draining {
            m
        } else {
            LedgerModel { failed: m.failed.insert(client_msg_id), ..m }
        },
        (Side::Alice, EventModel::Disconnected) => if draining {
            m
        } else {
            LedgerModel { reconnects: (m.reconnects + 1) as u64, ..m }
        },
        _ => m,
    }
}

/// The books agree: every message that was received is one of this measurement,
/// and has one latency.
pub open spec fn balanced(m: LedgerModel) -> bool {
    &&& m.received.finite()
    &&& m.received.subset_of(m.t0.dom())
    &&& m.latency.len() == m.received.len()
}

/// Books that agree go on agreeing.
pub proof fn law_books_stay_balanced(
    m: LedgerModel,
    side: Side,
    event: EventModel,
    now: Nanos,
    draining: bool,
)
    requires
        balanced(m),
    ensures
        balanced(after_told(m, side, event, now, draining)),
{
}

/// A message that is received twice counts once.
pub proof fn law_receipt_counts_once(m: LedgerModel, client_msg_id: u64, now: Nanos, later: Nanos)
    ensures
        ({
            let once = after_receipt(m, client_msg_id, now);
            after_receipt(once, client_msg_id, later) == once
        }),
{
}

/// The latency of a message is the time since it was queued: a first receipt at
/// `now` of a message that was queued at `born` adds one sample, their difference.
/// So only the time between the two counts, not when they were.
pub proof fn law_latency_is_time_since_queued(
    m: LedgerModel,
    queued: EventModel,
    msg: MsgModel,
    born: Nanos,
    now: Nanos,
    draining: bool,
)
    requires
        queued matches EventModel::MessageQueued { client_msg_id, .. } && client_msg_id
            == msg.client_msg_id,
        !m.received.contains(msg.client_msg_id),
        born <= now,
        now - born <= u64::MAX,
    ensures
        ({
            let sent = after_told(m, Side::Alice, queued, born, draining);
            let got = after_told(sent, Side::Bob, EventModel::Message(msg), now, draining);
            &&& sent.latency == m.latency
            &&& got.latency.len() == m.latency.len() + 1
            &&& got.latency.drop_last() == m.latency
            &&& got.latency.last() == now - born
            &&& got.received == m.received.insert(msg.client_msg_id)
        }),
{
    let sent = after_told(m, Side::Alice, queued, born, draining);
    let got = after_told(sent, Side::Bob, EventModel::Message(msg), now, draining);
    assert(got.latency.drop_last() =~= m.latency);
}

/// What the books say after a client told something, of each message: it was
/// confirmed, given up or received if it was before or if that is what was told.
pub proof fn law_books_say_what_was_told(
    m: LedgerModel,
    side: Side,
    event: EventModel,
    now: Nanos,
    draining: bool,
    id: u64,
)
    requires
        m.reconnects < u64::MAX,
    ensures
        ({
            let t = after_told(m, side, event, now, draining);
            &&& t.sent == m.sent
            &&& t.acked.contains(id) <==> m.acked.contains(id) || (!draining && side == Side::Alice
                && (event matches EventModel::Ack { client_msg_id, .. } && client_msg_id == id))
            &&& t.failed.contains(id) <==> m.failed.contains(id) || (!draining && side
                == Side::Alice && (event matches EventModel::SendFailed { client_msg_id }
                && client_msg_id == id))
            &&& t.received.contains(id) <==> m.received.contains(id) || (side == Side::Bob && (
            event matches EventModel::Message(msg) && msg.client_msg_id == id)
                && m.t0.contains_key(id))
            &&& t.t0.contains_key(id) <==> m.t0.contains_key(id) || (side == Side::Alice && (
            event matches EventModel::MessageQueued { client_msg_id, .. } && client_msg_id == id))
            &&& t.reconnects - m.reconnects == if !draining && side == Side::Alice
                && event is Disconnected {
                1int
            } else {
                0
            }
        }),
{
}

impl Ledger {
    /// The sketch of the latencies is in order.
    pub closed spec fn wf(&self) -> bool {
        self.latency.wf()
    }

    /// The books before the first event.
    #[must_use]
    pub fn new(sent: usize) -> (r: Self)
        ensures
            r.wf(),
            r@ == (LedgerModel {
                t0: Map::empty(),
                acked: Set::empty(),
                failed: Set::empty(),
                received: Set::empty(),
                reconnects: 0,
                latency: Seq::empty(),
                sent,
            }),
    {
        Ledger {
            t0: HashMap::new(),
            acked: HashSet::new(),
            failed: HashSet::new(),
            received: HashSet::new(),
            reconnects: 0,
            latency: LatencyHist::new(),
            sent,
        }
    }

    /// A client told something.
    pub fn book(
        &mut self,
        side: Side,
        event: &ClientEvent,
        now: Nanos,
        draining: bool,
    )
        requires
            old(self).wf(),
            old(self)@.latency.len() < u64::MAX,
            old(self)@.reconnects < u64::MAX,
        ensures
            final(self).wf(),
            final(self)@ == after_told(old(self)@, side, event@, now, draining),
    {
        match side {
            Side::Alice => match event {
                ClientEvent::MessageQueued { client_msg_id, .. } => {
                    self.t0.insert(*client_msg_id, now);
                },
                ClientEvent::Ack { client_msg_id, .. } => {
                    if !draining {
                        self.acked.insert(*client_msg_id);
                    }
                },
                ClientEvent::SendFailed { client_msg_id } => {
                    if !draining {
                        self.failed.insert(*client_msg_id);
                    }
                },
                ClientEvent::Disconnected => {
                    if !draining {
                        self.reconnects = self.reconnects + 1;
                    }
                },
                _ => {},
            },
            Side::Bob => match event {
                ClientEvent::Message(msg) => {
                    self.record_receive(msg.client_msg_id, now);
                },
                _ => {},
            },
        }
    }

    /// A message was received.
    fn record_receive(&mut self, client_msg_id: u64, now: Nanos)
        requires
            old(self).wf(),
            old(self)@.latency.len() < u64::MAX,
        ensures
            final(self).wf(),
            final(self)@ == after_receipt(old(self)@, client_msg_id, now),
    {
        let born: Nanos = match self.t0.get(&client_msg_id) {
            Some(born) => *born,
            None => return,
        };
        if self.received.contains(&client_msg_id) {
            return;
        }
        self.received.insert(client_msg_id);
        let d: Nanos = if now <= born {
            0
        } else {
            now - born
        };
        self.latency.record(d);
    }

    /// Whether every message was confirmed or given up.
    #[must_use]
    pub fn settled(&self) -> (r: bool)
        ensures
            r == (self@.acked.len() + self@.failed.len() >= self@.sent),
    {
        self.acked.len() as u128 + self.failed.len() as u128 >= self.sent as u128
    }

    /// Whether every message was received.
    #[must_use]
    pub fn drained(&self) -> (r: bool)
        ensures
            r == (self@.received.len() >= self@.sent),
    {
        self.received.len() >= self.sent
    }

    /// What came of the measurement; `upstream_attempts` is how many messages went
    /// into the link.
    #[must_use]
    pub fn outcome(self, upstream_attempts: u64) -> (r: ReliabilityOutcome)
        requires
            self.wf(),
        ensures
            r.sent == self@.sent,
            r.acked == self@.acked.len(),
            r.failed == self@.failed.len(),
            r.received == self@.received.len(),
            r.reconnects == self@.reconnects,
            r.upstream_attempts == upstream_attempts,
            r.latency.wf(),
            r.latency@ == self@.latency,
    {
        ReliabilityOutcome {
            sent: self.sent,
            acked: self.acked.len(),
            failed: self.failed.len(),
            received: self.received.len(),
            reconnects: self.reconnects,
            upstream_attempts,
            latency: self.latency,
        }
    }
}

/// How long both clients may take to log in: twenty seconds.
pub const READY_TIME: Nanos = 20_000_000_000;

/// How long messages that are under way are waited for at the end: five seconds.
pub const GRACE_TIME: Nanos = 5_000_000_000;

/// What the measurement is doing.
#[derive(Debug, Clone, Copy, PartialEq, Eq, Structural)]
pub enum ReliabilityPhase {
    /// Both clients log in.
    Readying,
    /// The messages are handed over.
    Sending,
    /// Every message is confirmed or given up.
    Settling,
    /// What is under way arrives.
    Draining,
    /// The measurement is over.
    Over,
}

/// What happens in the measurement.
#[derive(Debug)]
pub enum ReliabilityEvent {
    /// A client told something.
    Told(Side, ClientEvent),
    /// A client will not tell anything more.
    Ended(Side),
    /// Nobody told anything until the time that was given.
    Silence,
    /// A message was handed over; whether the client took it.
    Sent(bool),
}

/// What is to be done in the measurement.
#[derive(Debug)]
pub enum ReliabilityAction {
    /// Wait until a client tells something.
    Wait,
    /// Wait until a client tells something, but no longer than until this time.
    WaitUntil(Nanos),
    /// Hand over a message.
    Send,
    /// Close the books.
    Finish,
    /// Give up, for this reason.
    Fail(String),
}

/// What a [`ReliabilityAction`] says.
pub enum ReliabilityDeed {
    Wait,
    WaitUntil(Nanos),
    Send,
    Finish,
    Fail(Seq<char>),
}

impl View for ReliabilityAction {
    type V = ReliabilityDeed;

    open spec fn view(&self) -> ReliabilityDeed {
        match *self {
            ReliabilityAction::Wait => ReliabilityDeed::Wait,
            ReliabilityAction::WaitUntil(t) => ReliabilityDeed::WaitUntil(t),
            ReliabilityAction::Send => ReliabilityDeed::Send,
            ReliabilityAction::Finish => ReliabilityDeed::Finish,
            ReliabilityAction::Fail(text) => ReliabilityDeed::Fail(text@),
        }
    }
}

/// The measurement: two clients log in over the link, one sends, and the books are
/// kept until every message has settled and what is under way had time to arrive.
pub struct Reliability {
    phase: ReliabilityPhase,
    ready: Readiness,
    ledger: Ledger,
    left: usize,
    deadline: Nanos,
    window: Nanos,
    loss_permille: u32,
}

/// What a [`Reliability`] holds.
#[verifier::ext_equal]
pub struct ReliabilityModel {
    /// What it is doing.
    pub phase: ReliabilityPhase,
    /// Which of the clients are connected.
    pub ready: Readiness,
    /// The books.
    pub ledger: LedgerModel,
    /// How many messages are not handed over yet.
    pub left: usize,
    /// Until when this phase may take.
    pub deadline: Nanos,
    /// How long the messages may take to settle.
    pub window: Nanos,
    /// How many of a thousand frames are lost.
    pub loss_permille: u32,
}

impl View for Reliability {
    type V = ReliabilityModel;

    closed spec fn view(&self) -> ReliabilityModel {
        ReliabilityModel {
            phase: self.phase,
            ready: self.ready,
            ledger: self.ledger@,
            left: self.left,
            deadline: self.deadline,
            window: self.window,
            loss_permille: self.loss_permille,
        }
    }
}

/// The measurement has failed.
pub open spec fn given_up(m: ReliabilityModel, text: Seq<char>) -> (
    ReliabilityModel,
    ReliabilityDeed,
) {
    (ReliabilityModel { phase: ReliabilityPhase::Over, ..m }, ReliabilityDeed::Fail(text))
}

/// What is under way is waited for, until all has arrived or the time is over.
pub open spec fn still_draining(m: ReliabilityModel, now: Nanos) -> (
    ReliabilityModel,
    ReliabilityDeed,
) {
    if m.ledger.received.len() >= m.ledger.sent || now > m.deadline {
        (ReliabilityModel { phase: ReliabilityPhase::Over, ..m }, ReliabilityDeed::Finish)
    } else {
        (m, ReliabilityDeed::WaitUntil(m.deadline))
    }
}

/// The messages have settled, or had the time to.
pub open spec fn begin_draining(m: ReliabilityModel, now: Nanos) -> (
    ReliabilityModel,
    ReliabilityDeed,
) {
    still_draining(
        ReliabilityModel {
            phase: ReliabilityPhase::Draining,
            deadline: (now + GRACE_TIME) as u128,
            ..m
        },
        now,
    )
}

/// The messages are waited for, until all are confirmed or given up or the time is
/// over.
pub open spec fn still_settling(m: ReliabilityModel, now: Nanos) -> (
    ReliabilityModel,
    ReliabilityDeed,
) {
    if m.ledger.acked.len() + m.ledger.failed.len() >= m.ledger.sent || now > m.deadline {
        begin_draining(m, now)
    } else {
        (m, ReliabilityDeed::WaitUntil(m.deadline))
    }
}

/// Every message was handed over.
pub open spec fn begin_settling(m: ReliabilityModel, now: Nanos) -> (
    ReliabilityModel,
    ReliabilityDeed,
) {
    still_settling(
        ReliabilityModel {
            phase: ReliabilityPhase::Settling,
            deadline: (now + m.window) as u128,
            ..m
        },
        now,
    )
}

/// The clients are waited for, until both are connected or the time is over.
pub open spec fn still_readying(m: ReliabilityModel, now: Nanos) -> (
    ReliabilityModel,
    ReliabilityDeed,
) {
    if m.ready.alice && m.ready.bob {
        (ReliabilityModel { phase: ReliabilityPhase::Sending, ..m }, ReliabilityDeed::Send)
    } else if now > m.deadline {
        given_up(
            m,
            "20s 内未完成双端握手（丢包 "@ + decimal(m.loss_permille as nat)
                + "‰ 下重连应能成功）"@,
        )
    } else {
        (m, ReliabilityDeed::Wait)
    }
}

/// Which clients are connected after one told something.
pub open spec fn readier(r: Readiness, side: Side, event: EventModel) -> Readiness {
    Readiness {
        alice: r.alice || (side == Side::Alice && event is Connected),
        bob: r.bob || (side == Side::Bob && event is Connected),
    }
}

/// What can happen while the measurement does what it is doing.
pub open spec fn may_happen(phase: ReliabilityPhase, event: ReliabilityEvent) -> bool {
    match phase {
        ReliabilityPhase::Readying => event is Told || event is Ended,
        ReliabilityPhase::Sending => event is Sent,
        ReliabilityPhase::Settling | ReliabilityPhase::Draining => !(event is Sent),
        ReliabilityPhase::Over => false,
    }
}

/// The measurement after something has happened, and what is then to be done.
pub open spec fn reliability_step(m: ReliabilityModel, event: ReliabilityEvent, now: Nanos) -> (
    ReliabilityModel,
    ReliabilityDeed,
) {
    match event {
        ReliabilityEvent::Told(side, told) => match m.phase {
            ReliabilityPhase::Readying => still_readying(
                ReliabilityModel { ready: readier(m.ready, side, told@), ..m },
                now,
            ),
            ReliabilityPhase::Settling => still_settling(
                ReliabilityModel { ledger: after_told(m.ledger, side, told@, now, false), ..m },
                now,
            ),
            _ => still_draining(
                ReliabilityModel { ledger: after_told(m.ledger, side, told@, now, true), ..m },
                now,
            ),
        },
        ReliabilityEvent::Sent(taken) => if !taken {
            given_up(m, "消息入队"@)
        } else if m.left > 1 {
            (ReliabilityModel { left: (m.left - 1) as usize, ..m }, ReliabilityDeed::Send)
        } else {
            begin_settling(ReliabilityModel { left: 0, ..m }, now)
        },
        _ => match m.phase {
            ReliabilityPhase::Readying => given_up(
                m,
                match event {
                    ReliabilityEvent::Ended(Side::Alice) => "alice 客户端意外退出"@,
                    _ => "bob 客户端意外退出"@,
                },
            ),
            ReliabilityPhase::Settling => begin_draining(m, now),
            _ => (
                ReliabilityModel { phase: ReliabilityPhase::Over, ..m },
                ReliabilityDeed::Finish,
            ),
        },
    }
}

/// The books agree whatever happens.
pub proof fn law_measurement_stays_balanced(
    m: ReliabilityModel,
    event: ReliabilityEvent,
    now: Nanos,
)
    requires
        balanced(m.ledger),
    ensures
        balanced(reliability_step(m, event, now).0.ledger),
{
    if let ReliabilityEvent::Told(side, told) = event {
        law_books_stay_balanced(m.ledger, side, told@, now, false);
        law_books_stay_balanced(m.ledger, side, told@, now, true);
    }
}

/// A message counts with the time at which it was received, while messages settle
/// and while the rest is waited for.
pub proof fn law_measurement_samples_the_latency(
    m: ReliabilityModel,
    told: ClientEvent,
    msg: MsgModel,
    now: Nanos,
)
    requires
        m.phase == ReliabilityPhase::Settling || m.phase == ReliabilityPhase::Draining,
        told@ == EventModel::Message(msg),
        m.ledger.t0.contains_key(msg.client_msg_id),
        !m.ledger.received.contains(msg.client_msg_id),
        m.ledger.t0[msg.client_msg_id] <= now,
        now - m.ledger.t0[msg.client_msg_id] <= u64::MAX,
    ensures
        ({
            let t = reliability_step(m, ReliabilityEvent::Told(Side::Bob, told), now).0.ledger;
            &&& t.latency == m.ledger.latency.push((now - m.ledger.t0[msg.client_msg_id]) as u64)
            &&& t.received == m.ledger.received.insert(msg.client_msg_id)
            &&& t.acked == m.ledger.acked && t.failed == m.ledger.failed && t.t0 == m.ledger.t0
        }),
{
}

/// A message that is told as queued while messages settle is born at that time.
pub proof fn law_measurement_notes_the_birth(
    m: ReliabilityModel,
    told: ClientEvent,
    now: Nanos,
)
    requires
        m.phase == ReliabilityPhase::Settling || m.phase == ReliabilityPhase::Draining,
        told@ is MessageQueued,
    ensures
        ({
            let t = reliability_step(m, ReliabilityEvent::Told(Side::Alice, told), now).0.ledger;
            t.t0 == m.ledger.t0.insert(told@->MessageQueued_client_msg_id, now)
        }),
{
}

/// Every message is handed over, one after the other, before the measurement waits
/// for what becomes of them; a message that is not taken ends it.
pub proof fn law_every_message_is_handed_over(m: ReliabilityModel, taken: bool, now: Nanos)
    requires
        m.phase == ReliabilityPhase::Sending,
        m.left > 0,
    ensures
        ({
            let (t, deed) = reliability_step(m, ReliabilityEvent::Sent(taken), now);
            &&& t.ledger == m.ledger
            &&& taken ==> t.left == m.left - 1
            &&& taken ==> !(deed is Fail)
            &&& taken ==> (t.phase == ReliabilityPhase::Sending <==> t.left > 0)
            &&& taken ==> (deed is Send <==> t.left > 0)
            &&& !taken ==> deed is Fail && t.phase == ReliabilityPhase::Over
        }),
{
}

/// The measurement sends nothing before both clients are connected, and begins when
/// they are; it fails if they are not in time.
pub proof fn law_sending_waits_for_both(
    m: ReliabilityModel,
    side: Side,
    told: ClientEvent,
    now: Nanos,
)
    requires
        m.phase == ReliabilityPhase::Readying,
    ensures
        ({
            let (t, deed) = reliability_step(m, ReliabilityEvent::Told(side, told), now);
            let alice = m.ready.alice || (side == Side::Alice && told@ is Connected);
            let bob = m.ready.bob || (side == Side::Bob && told@ is Connected);
            &&& deed is Send <==> alice && bob
            &&& t.phase == ReliabilityPhase::Sending <==> alice && bob
            &&& deed is Fail <==> !(alice && bob) && now > m.deadline
            &&& t.ready.alice == alice && t.ready.bob == bob
            &&& t.left == m.left && t.ledger == m.ledger
        }),
{
}

/// The measurement does not stop early: while clients tell things it goes on until
/// every message was confirmed or given up and every one was received, or the time
/// for that is over. It waits no longer than that.
pub proof fn law_measurement_waits_for_the_messages(
    m: ReliabilityModel,
    side: Side,
    told: ClientEvent,
    now: Nanos,
)
    requires
        m.phase == ReliabilityPhase::Settling || m.phase == ReliabilityPhase::Draining,
        now + 5_000_000_000 <= u128::MAX,
    ensures
        ({
            let (t, deed) = reliability_step(m, ReliabilityEvent::Told(side, told), now);
            let settled = t.ledger.acked.len() + t.ledger.failed.len() >= m.ledger.sent;
            let all = t.ledger.received.len() >= m.ledger.sent;
            &&& m.phase == ReliabilityPhase::Settling ==> (t.phase == ReliabilityPhase::Settling
                <==> !settled && now <= m.deadline)
            &&& m.phase == ReliabilityPhase::Settling ==> (deed is Finish <==> (settled || now
                > m.deadline) && all)
            &&& m.phase == ReliabilityPhase::Settling && t.phase == ReliabilityPhase::Draining
                ==> deed == ReliabilityDeed::WaitUntil((now + 5_000_000_000) as u128)
            &&& m.phase == ReliabilityPhase::Draining ==> (deed is Finish <==> all || now
                > m.deadline)
            &&& deed is Finish || deed == ReliabilityDeed::WaitUntil(t.deadline)
        }),
{
}

/// Silence ends a wait: messages that have not settled by then are given the time to
/// arrive, and then the books are closed.
pub proof fn law_silence_ends_a_wait(m: ReliabilityModel, now: Nanos)
    requires
        now + 5_000_000_000 <= u128::MAX,
    ensures
        ({
            let (t, deed) = reliability_step(m, ReliabilityEvent::Silence, now);
            &&& t.ledger == m.ledger
            &&& m.phase == ReliabilityPhase::Settling ==> (deed is Finish <==> m.ledger.received.len()
                >= m.ledger.sent) && (deed is Finish || deed == ReliabilityDeed::WaitUntil(
                (now + 5_000_000_000) as u128,
            ))
            &&& m.phase == ReliabilityPhase::Draining ==> deed is Finish
        }),
{
}

impl Reliability {
    /// There are messages to hand over while they are handed over, and the books are
    /// in order.
    pub closed spec fn wf(&self) -> bool {
        &&& self.ledger.wf()
        &&& (self.phase == ReliabilityPhase::Readying || self.phase == ReliabilityPhase::Sending)
            ==> self.left > 0
    }

    /// The measurement begins with these settings: the clients are waited for.
    pub fn run_reliability(args: &WeakLinkArgs, now: Nanos) -> (r: (Self, ReliabilityAction))
        requires
            settings_error(*args) is None,
            now + READY_TIME <= u128::MAX,
        ensures
            r.0.wf(),
            r.0@ == (ReliabilityModel {
                phase: ReliabilityPhase::Readying,
                ready: Readiness { alice: false, bob: false },
                ledger: LedgerModel {
                    t0: Map::empty(),
                    acked: Set::empty(),
                    failed: Set::empty(),
                    received: Set::empty(),
                    reconnects: 0,
                    latency: Seq::empty(),
                    sent: args.messages,
                },
                left: args.messages,
                deadline: (now + READY_TIME) as u128,
                window: (args.deadline_secs * 1_000_000_000) as u128,
                loss_permille: args.loss_permille,
            }),
            r.1@ == ReliabilityDeed::Wait,
    {
        let measurement = Reliability {
            phase: ReliabilityPhase::Readying,
            ready: Readiness::new(),
            ledger: Ledger::new(args.messages),
            left: args.messages,
            deadline: now + READY_TIME,
            window: args.deadline_secs as u128 * 1_000_000_000,
            loss_permille: args.loss_permille,
        };
        (measurement, ReliabilityAction::Wait)
    }

    fn give_up(&mut self, text: String) -> (r: ReliabilityAction)
        requires
            old(self).wf(),
        ensures
            final(self).wf(),
            (final(self)@, r@) == given_up(old(self)@, text@),
    {
        self.phase = ReliabilityPhase::Over;
        ReliabilityAction::Fail(text)
    }

    fn drain(&mut self, now: Nanos) -> (r: ReliabilityAction)
        requires
            old(self).wf(),
        ensures
            final(self).wf(),
            (final(self)@, r@) == still_draining(old(self)@, now),
    {
        if self.ledger.drained() || now > self.deadline {
            self.phase = ReliabilityPhase::Over;
            ReliabilityAction::Finish
        } else {
            ReliabilityAction::WaitUntil(self.deadline)
        }
    }

    fn start_draining(&mut self, now: Nanos) -> (r: ReliabilityAction)
        requires
            old(self).wf(),
            now + GRACE_TIME <= u128::MAX,
        ensures
            final(self).wf(),
            (final(self)@, r@) == begin_draining(old(self)@, now),
    {
        self.phase = ReliabilityPhase::Draining;
        self.deadline = now + GRACE_TIME;
        self.drain(now)
    }

    fn settle(&mut self, now: Nanos) -> (r: ReliabilityAction)
        requires
            old(self).wf(),
            now + GRACE_TIME <= u128::MAX,
        ensures
            final(self).wf(),
            (final(self)@, r@) == still_settling(old(self)@, now),
    {
        if self.ledger.settled() || now > self.deadline {
            self.start_draining(now)
        } else {
            ReliabilityAction::WaitUntil(self.deadline)
        }
    }

    fn become_ready(&mut self, now: Nanos) -> (r: ReliabilityAction)
        requires
            old(self).wf(),
            old(self)@.phase == ReliabilityPhase::Readying,
        ensures
            final(self).wf(),
            (final(self)@, r@) == still_readying(old(self)@, now),
    {
        if self.ready.complete() {
            self.phase = ReliabilityPhase::Sending;
            return ReliabilityAction::Send;
        }
        if now > self.deadline {
            let mut s = String::from_str("20s 内未完成双端握手（丢包 ");
            push_decimal(&mut s, self.loss_permille as u128);
            s.append("‰ 下重连应能成功）");
            return self.give_up(s);
        }
        ReliabilityAction::Wait
    }

    /// Something has happened: what is to be done.
    pub fn run_reliability_step(&mut self, event: ReliabilityEvent, now: Nanos) -> (r:
        ReliabilityAction)
        requires
            old(self).wf(),
            may_happen(old(self)@.phase, event),
            old(self)@.ledger.latency.len() < u64::MAX,
            old(self)@.ledger.reconnects < u64::MAX,
            now + GRACE_TIME <= u128::MAX,
            now + old(self)@.window <= u128::MAX,
        ensures
            final(self).wf(),
            (final(self)@, r@) == reliability_step(old(self)@, event, now),
    {
        match event {
            ReliabilityEvent::Told(side, told) => match self.phase {
                ReliabilityPhase::Readying => {
                    self.ready.on_event(side, &told);
                    self.become_ready(now)
                },
                ReliabilityPhase::Settling => {
                    self.ledger.book(side, &told, now, false);
                    self.settle(now)
                },
                _ => {
                    self.ledger.book(side, &told, now, true);
                    self.drain(now)
                },
            },
            ReliabilityEvent::Sent(taken) => {
                if !taken {
                    return self.give_up("消息入队".to_owned());
                }
                if self.left > 1 {
                    self.left = self.left - 1;
                    return ReliabilityAction::Send;
                }
                self.left = 0;
                self.phase = ReliabilityPhase::Settling;
                self.deadline = now + self.window;
                self.settle(now)
            },
            ReliabilityEvent::Ended(Side::Alice) => self.fall_silent(
                "alice 客户端意外退出",
                now,
            ),
            _ => self.fall_silent("bob 客户端意外退出", now),
        }
    }

    fn fall_silent(&mut self, text: &str, now: Nanos) -> (r: ReliabilityAction)
        requires
            old(self).wf(),
            now + GRACE_TIME <= u128::MAX,
        ensures
            final(self).wf(),
            (final(self)@, r@) == (match old(self)@.phase {
                ReliabilityPhase::Readying => given_up(old(self)@, text@),
                ReliabilityPhase::Settling => begin_draining(old(self)@, now),
                _ => (
                    ReliabilityModel { phase: ReliabilityPhase::Over, ..old(self)@ },
                    ReliabilityDeed::Finish,
                ),
            }),
    {
        match self.phase {
            ReliabilityPhase::Readying => self.give_up(text.to_owned()),
            ReliabilityPhase::Settling => self.start_draining(now),
            _ => {
                self.phase = ReliabilityPhase::Over;
                ReliabilityAction::Finish
            },
        }
    }

    /// What came of the measurement; `upstream_attempts` is how many messages went
    /// into the link.
    #[must_use]
    pub fn outcome(self, upstream_attempts: u64) -> (r: ReliabilityOutcome)
        requires
            self.wf(),
        ensures
            r.sent == self@.ledger.sent,
            r.acked == self@.ledger.acked.len(),
            r.failed == self@.ledger.failed.len(),
            r.received == self@.ledger.received.len(),
            r.reconnects == self@.ledger.reconnects,
            r.upstream_attempts == upstream_attempts,
            r.latency.wf(),
            r.latency@ == self@.ledger.latency,
    {
        self.ledger.outcome(upstream_attempts)
    }
}

/// What came of a measurement.
pub struct ReliabilityOutcome {
    /// How many messages were sent.
    pub sent: usize,
    /// How many were confirmed.
    pub acked: usize,
    /// How many were given up.
    pub failed: usize,
    /// How many were received.
    pub received: usize,
    /// How often the sender lost its connection.
    pub reconnects: u64,
    /// How many messages went into the link.
    pub upstream_attempts: u64,
    /// How long the messages took that were received.
    pub latency: LatencyHist,
}

/// Latencies for a report.
#[derive(Debug, Clone, Copy, PartialEq, Eq, Structural)]
pub struct LatencySummary {
    /// Half of the messages took no longer.
    pub p50: Nanos,
    /// Nine of ten messages took no longer.
    pub p90: Nanos,
    /// Ninety-nine of a hundred messages took no longer.
    pub p99: Nanos,
    /// No message took longer.
    pub max: Nanos,
}

/// `d` is what a sketch of the samples reports for a percentile.
pub open spec fn reported(samples: Seq<u64>, pct: nat, d: Nanos) -> bool {
    exists|k: nat| #[trigger]
        ranked_in(samples, rank_of(samples.len(), pct), k) && d == slot_floor(k)
}

/// The latencies of a sketch for a report; nothing, if there are none.
#[must_use]
pub fn summarize(hist: &LatencyHist) -> (r: Option<LatencySummary>)
    requires
        hist.wf(),
    ensures
        summarized(hist@, r),
{
    match hist.max() {
        None => None,
        Some(max) => {
            assert(hist@.len() > 0);
            Some(
                LatencySummary {
                    p50: hist.percentile(50),
                    p90: hist.percentile(90),
                    p99: hist.percentile(99),
                    max,
                },
            )
        },
    }
}

/// What the lines of a vector say.
pub open spec fn line_views(v: Seq<String>) -> Seq<Seq<char>> {
    v.map_values(|s: String| s@)
}

/// The lines of a report, up to the latencies.
pub open spec fn report_head(args: WeakLinkArgs, o: ReliabilityOutcome) -> Seq<Seq<char>> {
    let arrival = (o.received as nat * 1000) / (o.sent as nat);
    seq![
            "──── im-bench · weak-link ───────────────────────"@,
            "链路            : RTT "@
                + decimal(args.rtt_ms as nat)
                + "ms（每方向 "@
                + decimal((args.rtt_ms / 2) as nat)
                + "ms）+ 每方向丢包 "@
                + decimal(args.loss_permille as nat)
                + "‰ + 抖动 0.."@
                + decimal(args.jitter_ms as nat)
                + "ms"@,
            "客户端          : 真实 run_client（重传 RTO "@
                + decimal(args.retry_timeout_ms as nat)
                + "ms × 最多 "@
                + decimal(args.retry_max_attempts as nat)
                + " 次）"@,
            "发送            : "@
                + decimal(o.sent as nat)
                + " 条（载荷 "@
                + decimal(args.payload_bytes as nat)
                + " 字节，种子 "@
                + decimal(args.seed as nat)
                + "）"@,
            "服务端确认      : "@
                + decimal(o.acked as nat)
                + " 条   放弃(重传耗尽): "@
                + decimal(o.failed as nat)
                + " 条   发送端断线重连: "@
                + decimal(o.reconnects as nat)
                + " 次"@,
            "接收端实收      : "@
                + decimal(o.received as nat)
                + " 条（去重后口径）→ 到达率 "@
                + decimal(arrival as nat)
                + "‰（"@
                + decimal((arrival / 10) as nat)
                + "."@
                + decimal((arrival % 10) as nat)
                + "%）"@,
    ]
}

/// The line of the latencies.
pub open spec fn latency_line(l: LatencySummary) -> Seq<char> {
    "端到端延迟      : P50 "@
        + span_text(l.p50 as nat)
        + "   P90 "@
        + span_text(l.p90 as nat)
        + "   P99 "@
        + span_text(l.p99 as nat)
        + "   max "@
        + span_text(l.max as nat)
}

/// The line of the messages that went into the link.
pub open spec fn attempts_line(o: ReliabilityOutcome) -> Seq<char> {
    let amp = (o.upstream_attempts as nat * 100) / (o.sent as nat);
    "对账            : 上行 Msg 帧 "@
        + decimal(o.upstream_attempts as nat)
        + " 个（含重传，每条消息平均尝试 "@
        + decimal((amp / 100) as nat)
        + "."@
        + two_digits((amp % 100) as nat)
        + " 次）"@
}

/// The last line of a report.
pub open spec fn report_end() -> Seq<char> {
    "口径说明        : 帧级注入（丢整帧）；接收计数在去重后；数据归档 docs/16"@
}

/// The lines of a report.
#[must_use]
pub fn report(args: &WeakLinkArgs, o: &ReliabilityOutcome) -> (r: Vec<String>)
    requires
        o.sent >= 1,
        o.latency.wf(),
    ensures
        exists|l: Option<LatencySummary>| #[trigger]
            summarized(o.latency@, l) && line_views(r@) == match l {
                Some(l) => report_head(*args, *o) + seq![
                    latency_line(l),
                    attempts_line(*o),
                    report_end(),
                ],
                None => report_head(*args, *o) + seq![attempts_line(*o), report_end()],
            },
{
    let mut out: Vec<String> = Vec::new();
    let arrival: u128 = o.received as u128 * 1000 / o.sent as u128;
    out.push("──── im-bench · weak-link ───────────────────────".to_owned());
    let mut s = String::from_str("链路            : RTT ");
    push_decimal(&mut s, args.rtt_ms as u128);
    s.append("ms（每方向 ");
    push_decimal(&mut s, (args.rtt_ms / 2) as u128);
    s.append("ms）+ 每方向丢包 ");
    push_decimal(&mut s, args.loss_permille as u128);
    s.append("‰ + 抖动 0..");
    push_decimal(&mut s, args.jitter_ms as u128);
    s.append("ms");
    out.push(s);
    let mut s = String::from_str("客户端          : 真实 run_client（重传 RTO ");
    push_decimal(&mut s, args.retry_timeout_ms as u128);
    s.append("ms × 最多 ");
    push_decimal(&mut s, args.retry_max_attempts as u128);
    s.append(" 次）");
    out.push(s);
    let mut s = String::from_str("发送            : ");
    push_decimal(&mut s, o.sent as u128);
    s.append(" 条（载荷 ");
    push_decimal(&mut s, args.payload_bytes as u128);
    s.append(" 字节，种子 ");
    push_decimal(&mut s, args.seed as u128);
    s.append("）");
    out.push(s);
    let mut s = String::from_str("服务端确认      : ");
    push_decimal(&mut s, o.acked as u128);
    s.append(" 条   放弃(重传耗尽): ");
    push_decimal(&mut s, o.failed as u128);
    s.append(" 条   发送端断线重连: ");
    push_decimal(&mut s, o.reconnects as u128);
    s.append(" 次");
    out.push(s);
    let mut s = String::from_str("接收端实收      : ");
    push_decimal(&mut s, o.received as u128);
    s.append(" 条（去重后口径）→ 到达率 ");
    push_decimal(&mut s, arrival as u128);
    s.append("‰（");
    push_decimal(&mut s, arrival / 10 as u128);
    s.append(".");
    push_decimal(&mut s, arrival % 10 as u128);
    s.append("%）");
    out.push(s);
    assert(line_views(out@) =~= report_head(*args, *o));
    let summary = summarize(&o.latency);
    if let Some(l) = summary {
        let mut s = String::from_str("端到端延迟      : P50 ");
        s.append(fmt_secs(l.p50).as_str());
        s.append("   P90 ");
        s.append(fmt_secs(l.p90).as_str());
        s.append("   P99 ");
        s.append(fmt_secs(l.p99).as_str());
        s.append("   max ");
        s.append(fmt_secs(l.max).as_str());
        out.push(s);
    }
    let amp: u128 = o.upstream_attempts as u128 * 100 / o.sent as u128;
    let mut s = String::from_str("对账            : 上行 Msg 帧 ");
    push_decimal(&mut s, o.upstream_attempts as u128);
    s.append(" 个（含重传，每条消息平均尝试 ");
    push_decimal(&mut s, amp / 100 as u128);
    s.append(".");
    push_two_digits(&mut s, (amp % 100) as u8);
    s.append(" 次）");
    out.push(s);
    out.push("口径说明        : 帧级注入（丢整帧）；接收计数在去重后；数据归档 docs/16".to_owned());
    proof {
        assert(summarized(o.latency@, summary));
        match summary {
            Some(l) => {
                assert(line_views(out@) =~= report_head(*args, *o) + seq![
                    latency_line(l),
                    attempts_line(*o),
                    report_end(),
                ]);
            },
            None => {
                assert(line_views(out@) =~= report_head(*args, *o) + seq![
                    attempts_line(*o),
                    report_end(),
                ]);
            },
        }
    }
    out
}

/// `l` is what a report says of the samples.
pub open spec fn summarized(samples: Seq<u64>, l: Option<LatencySummary>) -> bool {
    match l {
        None => samples.len() == 0,
        Some(l) => {
            &&& samples.len() > 0
            &&& reported(samples, 50, l.p50)
            &&& reported(samples, 90, l.p90)
            &&& reported(samples, 99, l.p99)
            &&& l.max <= u64::MAX
            &&& is_greatest(samples, l.max as u64)
        },
    }
}

/// What a report says of the messages: how many were sent, confirmed, given up and
/// received, and of a thousand that were sent how many were received, rounded down;
/// and how often a message was sent on average, in hundredths, rounded down.
pub proof fn law_report_of_a_weak_link(args: WeakLinkArgs, o: ReliabilityOutcome, v: nat, w: nat)
    requires
        o.sent >= 1,
        v * o.sent <= o.received * 1000 < (v + 1) * o.sent,
        w * o.sent <= o.upstream_attempts * 100 < (w + 1) * o.sent,
    ensures
        report_head(args, o).len() == 6,
        report_head(args, o)[4] == "服务端确认      : "@ + decimal(o.acked as nat)
            + " 条   放弃(重传耗尽): "@ + decimal(o.failed as nat)
            + " 条   发送端断线重连: "@ + decimal(o.reconnects as nat) + " 次"@,
        report_head(args, o)[5] == "接收端实收      : "@ + decimal(o.received as nat)
            + " 条（去重后口径）→ 到达率 "@ + decimal(v) + "‰（"@ + decimal(v / 10) + "."@
            + decimal(v % 10) + "%）"@,
        attempts_line(o) == "对账            : 上行 Msg 帧 "@ + decimal(o.upstream_attempts as nat)
            + " 个（含重传，每条消息平均尝试 "@ + decimal(w / 100) + "."@ + two_digits(w % 100)
            + " 次）"@,
{
    lemma_quotient(o.received as nat * 1000, o.sent as nat, v);
    lemma_quotient(o.upstream_attempts as nat * 100, o.sent as nat, w);
}

proof fn lemma_quotient(x: nat, n: nat, q: nat)
    requires
        n >= 1,
        q * n <= x < (q + 1) * n,
    ensures
        x / n == q,
{
    assert((q + 1) * n == q * n + n) by (nonlinear_arith);
    assert(x == q * n + (x - q * n));
    vstd::arithmetic::div_mod::lemma_fundamental_div_mod_converse(
        x as int,
        n as int,
        q as int,
        x - q * n,
    );
}

/// What a report says of the latencies.
pub proof fn law_latency_line(l: LatencySummary)
    ensures
        latency_line(l) == "端到端延迟      : P50 "@ + span_text(l.p50 as nat) + "   P90 "@
            + span_text(l.p90 as nat) + "   P99 "@ + span_text(l.p99 as nat) + "   max "@ + span_text(
            l.max as nat,
        ),
{
}

/// The settings with which there is a measurement.
pub proof fn law_settings_of_a_weak_link(args: WeakLinkArgs)
    ensures
        settings_error(args) is None <==> args.messages >= 1 && args.loss_permille <= 1000,
{
}

/// What is summed up of samples: of the samples in order, those of the ranks of the
/// percentiles, as exactly as the sketch has them, and the greatest itself.
pub proof fn law_summary_of_samples(samples: Seq<u64>, sorted: Seq<u64>, l: LatencySummary)
    requires
        summarized(samples, Some(l)),
        samples.to_multiset() == sorted.to_multiset(),
        forall|i: int, j: int| 0 <= i <= j < sorted.len() ==> sorted[i] <= sorted[j],
    ensures
        sorted.len() == samples.len(),
        l.p50 == slot_floor(slot_of(sorted[rank_of(sorted.len(), 50) - 1] as nat)),
        l.p90 == slot_floor(slot_of(sorted[rank_of(sorted.len(), 90) - 1] as nat)),
        l.p99 == slot_floor(slot_of(sorted[rank_of(sorted.len(), 99) - 1] as nat)),
        l.max == sorted[sorted.len() - 1],
{
    samples.to_multiset_ensures();
    sorted.to_multiset_ensures();
    let n = samples.len();
    assert(sorted.len() == n);
    lemma_reported(samples, sorted, 50, l.p50);
    lemma_reported(samples, sorted, 90, l.p90);
    lemma_reported(samples, sorted, 99, l.p99);
    let last = sorted[n - 1];
    assert(sorted.contains(last));
    assert(samples.to_multiset().contains(last));
    assert(samples.contains(last));
    let i = choose|i: int| 0 <= i < samples.len() && samples[i] == last;
    assert(samples[i] <= l.max);
    let m = l.max as u64;
    assert(samples.contains(m));
    assert(sorted.to_multiset().contains(m));
    assert(sorted.contains(m));
    let j = choose|j: int| 0 <= j < sorted.len() && sorted[j] == m;
    assert(sorted[j] <= sorted[n - 1]);
}

proof fn lemma_reported(samples: Seq<u64>, sorted: Seq<u64>, pct: nat, d: Nanos)
    requires
        samples.len() > 0,
        samples.len() == sorted.len(),
        reported(samples, pct, d),
        samples.to_multiset() == sorted.to_multiset(),
        forall|i: int, j: int| 0 <= i <= j < sorted.len() ==> sorted[i] <= sorted[j],
    ensures
        d == slot_floor(slot_of(sorted[rank_of(sorted.len(), pct) - 1] as nat)),
{
    let n = samples.len();
    let k = choose|k: nat| #[trigger]
        ranked_in(samples, rank_of(n, pct), k) && d == slot_floor(k);
    law_rank_covers_the_percentile(n, pct);
    law_rank_in_sorted_samples(samples, sorted, rank_of(n, pct), k);
}

} // verus!
