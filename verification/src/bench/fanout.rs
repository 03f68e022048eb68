//! One message to every member of a group: how the measurement goes, and the books
//! that have to balance.

use vstd::prelude::*;
use crate::bench::format::{fmt_us, grouped, thousands, us_text};
use crate::bench::weaklink::line_views;
use crate::client::message::{Msg, MsgModel};
use crate::client::outbox::Nanos;
use crate::octets::bytes_from_vec;
use crate::text::{decimal, push_decimal};

verus! {

/// The group that is measured.
pub const GROUP_ID: u64 = 900_000_000_000;

/// Who sends to it, without being a member.
pub const SENDER_ID: u64 = 900_000_000_001;

/// How long every member may take to be served: sixty seconds.
pub const BENCH_DEADLINE: Nanos = 60_000_000_000;

/// The settings of the measurement.
#[derive(Debug, Clone, Copy, PartialEq, Eq, Structural)]
pub struct GroupFanoutArgs {
    /// How many members the group has.
    pub members: usize,
    /// How many messages are sent without a pause.
    pub messages: u64,
    /// How often one message is timed.
    pub samples: usize,
    /// How many members never read.
    pub slow: usize,
    /// How many messages wait for any other member.
    pub capacity: usize,
    /// How long a message is.
    pub payload: usize,
}

/// Why there is no measurement with these settings.
pub open spec fn fanout_settings_error(args: GroupFanoutArgs) -> Option<Seq<char>> {
    if args.slow > args.members {
        Some("--slow 不能超过 --members"@)
    } else if args.capacity < 1 {
        Some("--capacity 至少为 1"@)
    } else if args.payload < 1 {
        Some("--payload 至少为 1 字节"@)
    } else {
        None
    }
}

/// How a member is set up.
#[derive(Debug, Clone, Copy, PartialEq, Eq, Structural)]
pub struct MemberSetup {
    /// The member.
    pub user_id: u64,
    /// The member's session.
    pub session_id: u64,
    /// How many messages wait for the member.
    pub capacity: usize,
    /// The member reads.
    pub reads: bool,
}

/// How the member at `idx` is set up: the first ones never read, and one message
/// waits for each.
#[must_use]
pub fn setup(args: &GroupFanoutArgs, idx: usize) -> (r: MemberSetup)
    requires
        idx < args.members,
    ensures
        r.user_id == idx + 1,
        r.session_id == idx + 1,
        r.reads == (idx >= args.slow),
        r.capacity == if idx < args.slow {
            1
        } else {
            args.capacity
        },
{
    let id: u64 = idx as u64 + 1;
    MemberSetup {
        user_id: id,
        session_id: id,
        capacity: if idx < args.slow {
            1
        } else {
            args.capacity
        },
        reads: idx >= args.slow,
    }
}

/// The message with this number.
#[must_use]
pub fn make_msg(args: &GroupFanoutArgs, msg_id: u64) -> (r: Msg)
    ensures
        r@ == (MsgModel {
            from: SENDER_ID,
            to: GROUP_ID,
            msg_id,
            client_msg_id: msg_id,
            content: Seq::new(args.payload as nat, |i: int| 120u8),
        }),
{
    let mut content: Vec<u8> = Vec::new();
    while content.len() < args.payload
        invariant
            content@.len() <= args.payload,
            content@ =~= Seq::new(content@.len(), |i: int| 120u8),
        decreases args.payload - content@.len(),
    {
        content.push(120);
    }
    Msg {
        from: SENDER_ID,
        to: GROUP_ID,
        msg_id,
        client_msg_id: msg_id,
        content: bytes_from_vec(content),
    }
}

/// What a group has counted.
#[derive(Debug, Clone, Copy, PartialEq, Eq, Structural)]
pub struct GroupStats {
    /// Messages that were given to every member.
    pub fanned: u64,
    /// Members that got one.
    pub delivered: u64,
    /// Members for whom too much was waiting.
    pub skipped: u64,
    /// Members that were not there.
    pub offline: u64,
}

/// How far a group is.
#[derive(Debug, Clone, Copy, PartialEq, Eq, Structural)]
pub struct Progress {
    /// Messages that were given to every member.
    pub fanned: u64,
    /// Members that were served, one way or another.
    pub done: u64,
}

/// How far a group is by what it has counted.
#[must_use]
pub fn progress(stats: &GroupStats) -> (r: Progress)
    requires
        stats.delivered + stats.skipped + stats.offline <= u64::MAX,
    ensures
        r == (Progress {
            fanned: stats.fanned,
            done: (stats.delivered + stats.skipped + stats.offline) as u64,
        }),
{
    Progress { fanned: stats.fanned, done: stats.delivered + stats.skipped + stats.offline }
}

/// A group that was at `base` has served `msgs` more messages.
pub open spec fn served(base: Progress, msgs: nat, per_msg: nat, p: Progress) -> bool {
    p.fanned >= base.fanned + msgs && p.done >= base.done + msgs * per_msg
}

/// Whether a group has served what was sent.
#[derive(Debug, Clone, Copy, PartialEq, Eq, Structural)]
pub enum WaitVerdict {
    /// It has.
    Served,
    /// It has not: look again.
    Again,
    /// It has not, and the time is over.
    TooLate,
}

/// Whether a group that was at `base` has served `msgs` more messages.
#[must_use]
pub fn wait_fanout(
    base: Progress,
    msgs: u64,
    per_msg: usize,
    p: Progress,
    now: Nanos,
    deadline: Nanos,
) -> (r: WaitVerdict)
    ensures
        r == (if served(base, msgs as nat, per_msg as nat, p) {
            WaitVerdict::Served
        } else if now < deadline {
            WaitVerdict::Again
        } else {
            WaitVerdict::TooLate
        }),
{
    assert(msgs * per_msg <= u64::MAX * u64::MAX) by (nonlinear_arith)
        requires
            msgs <= u64::MAX,
            per_msg <= u64::MAX,
    ;
    let want_fanned: u128 = base.fanned as u128 + msgs as u128;
    let want_done: u128 = base.done as u128 + msgs as u128 * per_msg as u128;
    if p.fanned as u128 >= want_fanned && p.done as u128 >= want_done {
        WaitVerdict::Served
    } else if now < deadline {
        WaitVerdict::Again
    } else {
        WaitVerdict::TooLate
    }
}

// ---------------------------------------------------------------------------
// Samples
// ---------------------------------------------------------------------------

/// The samples rise.
pub open spec fn ascending(s: Seq<u128>) -> bool {
    forall|i: int, j: int| 0 <= i <= j < s.len() ==> s[i] <= s[j]
}

/// Where a sample goes among samples that rise: behind those that are not greater.
pub open spec fn place_of(s: Seq<u128>, x: u128) -> int
    decreases s.len(),
{
    if s.len() == 0 || s.last() <= x {
        s.len() as int
    } else {
        place_of(s.drop_last(), x)
    }
}

/// The samples with one more, in order.
pub open spec fn with_sample(s: Seq<u128>, x: u128) -> Seq<u128> {
    s.insert(place_of(s, x), x)
}

proof fn lemma_place(s: Seq<u128>, x: u128)
    requires
        ascending(s),
    ensures
        0 <= place_of(s, x) <= s.len(),
        forall|i: int| 0 <= i < place_of(s, x) ==> s[i] <= x,
        forall|i: int| place_of(s, x) <= i < s.len() ==> s[i] > x,
    decreases s.len(),
{
    if s.len() > 0 && s.last() > x {
        lemma_place(s.drop_last(), x);
        assert forall|i: int| place_of(s, x) <= i < s.len() implies s[i] > x by {
            if i < s.len() - 1 {
                assert(s.drop_last()[i] == s[i]);
            }
        }
        assert forall|i: int| 0 <= i < place_of(s, x) implies s[i] <= x by {
            assert(s.drop_last()[i] == s[i]);
        }
    }
}

/// Samples stay in order, and none is lost.
pub proof fn law_samples_are_sorted(s: Seq<u128>, x: u128)
    requires
        ascending(s),
    ensures
        ascending(with_sample(s, x)),
        with_sample(s, x).to_multiset() == s.to_multiset().insert(x),
{
    lemma_place(s, x);
    let at = place_of(s, x);
    let t = with_sample(s, x);
    assert forall|i: int, j: int| 0 <= i <= j < t.len() implies t[i] <= t[j] by {
        let a = if i < at {
            i
        } else {
            i - 1
        };
        let b = if j < at {
            j
        } else {
            j - 1
        };
        if i != at && j != at {
            assert(t[i] == s[a] && t[j] == s[b]);
        }
    }
    s.to_multiset_ensures();
    vstd::seq_lib::lemma_multiset_commutative(s.take(at), seq![x] + s.skip(at));
    vstd::seq_lib::lemma_multiset_commutative(seq![x], s.skip(at));
    vstd::seq_lib::lemma_multiset_commutative(s.take(at), s.skip(at));
    assert(t =~= s.take(at) + (seq![x] + s.skip(at)));
    assert(s =~= s.take(at) + s.skip(at));
    assert(seq![x].to_multiset() =~= vstd::multiset::Multiset::singleton(x)) by {
        assert(seq![x] =~= Seq::<u128>::empty().push(x));
        Seq::<u128>::empty().to_multiset_ensures();
        assert(Seq::<u128>::empty().to_multiset() =~= vstd::multiset::Multiset::empty());
    }
    assert(t.to_multiset() =~= s.to_multiset().insert(x));
}

/// The place of a percentile among so many samples.
pub open spec fn rank_at(n: nat, pct: nat) -> nat {
    let up = (n * pct + 99) / 100;
    if up < 1 {
        0
    } else if up > n {
        (n - 1) as nat
    } else {
        (up - 1) as nat
    }
}

/// A percentile of samples that rise: the sample at the nearest place.
pub open spec fn nearest(s: Seq<u128>, pct: nat) -> u128 {
    s[rank_at(s.len(), pct) as int]
}

/// A percentile is a sample, that many of a hundred samples are not behind it, and
/// it is the first such sample.
pub proof fn law_nearest_rank(n: nat, pct: nat)
    requires
        n >= 1,
        1 <= pct <= 100,
    ensures
        rank_at(n, pct) < n,
        (rank_at(n, pct) + 1) * 100 >= n * pct,
        rank_at(n, pct) * 100 < n * pct,
{
    assert(1 <= n * pct <= n * 100) by (nonlinear_arith)
        requires
            n >= 1,
            1 <= pct <= 100,
    ;
}

/// A greater percentile is not a smaller sample.
pub proof fn law_percentiles_rise(s: Seq<u128>, p: nat, q: nat)
    requires
        s.len() >= 1,
        ascending(s),
        p <= q,
    ensures
        nearest(s, p) <= nearest(s, q),
{
    let n = s.len();
    assert(n * p <= n * q) by (nonlinear_arith)
        requires
            p <= q,
    ;
}

/// A percentile of samples that rise.
#[must_use]
pub fn percentile(sorted: &Vec<u128>, pct: u64) -> (r: u128)
    requires
        sorted@.len() >= 1,
    ensures
        r == nearest(sorted@, pct as nat),
{
    let n: u128 = sorted.len() as u128;
    assert(n * pct <= u64::MAX * u64::MAX) by (nonlinear_arith)
        requires
            n <= u64::MAX,
            pct <= u64::MAX,
    ;
    let up: u128 = (n * pct as u128 + 99) / 100;
    let rank: u128 = if up < 1 {
        0
    } else if up > n {
        n - 1
    } else {
        up - 1
    };
    sorted[rank as usize]
}

// ---------------------------------------------------------------------------
// The measurement
// ---------------------------------------------------------------------------

/// What the measurement is doing.
#[derive(Debug, Clone, Copy, PartialEq, Eq, Structural)]
pub enum FanoutPhase {
    /// The first message, which is not measured, is sent.
    WarmRoute,
    /// It is waited for.
    WarmWait,
    /// A sample begins.
    SampleBase,
    /// Its message is sent.
    SampleRoute,
    /// It is waited for.
    SampleWait,
    /// The burst begins.
    BurstBase,
    /// Its messages are sent.
    BurstRoute,
    /// They are waited for.
    BurstWait,
    /// The measurement is over.
    Over,
}

/// What happens in the measurement.
#[derive(Debug, Clone, Copy, PartialEq, Eq, Structural)]
pub enum FanoutEvent {
    /// A message was handed over; whether the group took it.
    Routed(bool),
    /// The group is this far.
    Seen(Progress),
}

/// What is to be done in the measurement.
#[derive(Debug, Clone, Copy, PartialEq, Eq)]
pub enum FanoutAction {
    /// Hand over the message with this number.
    Route(u64),
    /// See how far the group is.
    Look,
    /// Report.
    Report,
    /// Give up, for this reason.
    Fail(&'static str),
}

/// What a [`FanoutAction`] says.
pub enum ActionModel {
    Route(u64),
    Look,
    Report,
    Fail(Seq<char>),
}

impl View for FanoutAction {
    type V = ActionModel;

    open spec fn view(&self) -> ActionModel {
        match *self {
            FanoutAction::Route(id) => ActionModel::Route(id),
            FanoutAction::Look => ActionModel::Look,
            FanoutAction::Report => ActionModel::Report,
            FanoutAction::Fail(text) => ActionModel::Fail(text@),
        }
    }
}

/// The measurement: one message that is not measured, messages that are timed one by
/// one, and a burst.
#[derive(Debug)]
pub struct Fanout {
    args: GroupFanoutArgs,
    phase: FanoutPhase,
    next_msg_id: u64,
    base: Progress,
    began: Nanos,
    deadline: Nanos,
    sent: u64,
    latencies_us: Vec<u128>,
    burst: Option<(u64, Nanos)>,
}

/// What a [`Fanout`] holds.
#[verifier::ext_equal]
pub struct FanoutModel {
    /// The settings.
    pub args: GroupFanoutArgs,
    /// What it is doing.
    pub phase: FanoutPhase,
    /// The number of the next message.
    pub next_msg_id: u64,
    /// How far the group was when this part began.
    pub base: Progress,
    /// When this part began.
    pub began: Nanos,
    /// Until when it may take.
    pub deadline: Nanos,
    /// How many messages of the burst were sent.
    pub sent: u64,
    /// The samples in order, in microseconds.
    pub latencies_us: Seq<u128>,
    /// How many messages the burst had, and how long it took.
    pub burst: Option<(u64, Nanos)>,
}

impl View for Fanout {
    type V = FanoutModel;

    closed spec fn view(&self) -> FanoutModel {
        FanoutModel {
            args: self.args,
            phase: self.phase,
            next_msg_id: self.next_msg_id,
            base: self.base,
            began: self.began,
            deadline: self.deadline,
            sent: self.sent,
            latencies_us: self.latencies_us@,
            burst: self.burst,
        }
    }
}

/// What follows a sample: the next, the burst, or the report.
pub open spec fn fanout_next(m: FanoutModel) -> (FanoutModel, ActionModel) {
    if m.latencies_us.len() < m.args.samples {
        (FanoutModel { phase: FanoutPhase::SampleBase, ..m }, ActionModel::Look)
    } else if m.args.messages > 0 {
        (FanoutModel { phase: FanoutPhase::BurstBase, ..m }, ActionModel::Look)
    } else {
        (FanoutModel { phase: FanoutPhase::Over, ..m }, ActionModel::Report)
    }
}

/// A message is waited for.
pub open spec fn fanout_waits(m: FanoutModel, phase: FanoutPhase, now: Nanos) -> (
    FanoutModel,
    ActionModel,
) {
    (
        FanoutModel { phase, deadline: (now + BENCH_DEADLINE) as u128, ..m },
        ActionModel::Look,
    )
}

/// What is done with a message that was handed over.
pub open spec fn fanout_routed(m: FanoutModel, now: Nanos) -> (FanoutModel, ActionModel) {
    let m1 = FanoutModel { next_msg_id: (m.next_msg_id + 1) as u64, ..m };
    match m.phase {
        FanoutPhase::WarmRoute => fanout_waits(m1, FanoutPhase::WarmWait, now),
        FanoutPhase::SampleRoute => fanout_waits(m1, FanoutPhase::SampleWait, now),
        _ => {
            let m2 = FanoutModel { sent: (m.sent + 1) as u64, ..m1 };
            if m2.sent < m.args.messages {
                (m2, ActionModel::Route(m2.next_msg_id))
            } else {
                fanout_waits(m2, FanoutPhase::BurstWait, now)
            }
        },
    }
}

/// What is done when a part of the measurement begins.
pub open spec fn fanout_begins(m: FanoutModel, p: Progress, now: Nanos) -> (
    FanoutModel,
    ActionModel,
) {
    (
        FanoutModel {
            phase: if m.phase == FanoutPhase::SampleBase {
                FanoutPhase::SampleRoute
            } else {
                FanoutPhase::BurstRoute
            },
            base: p,
            began: now,
            ..m
        },
        ActionModel::Route(m.next_msg_id),
    )
}

/// What is done when the messages that were waited for were served.
pub open spec fn fanout_served(m: FanoutModel, now: Nanos) -> (FanoutModel, ActionModel) {
    match m.phase {
        FanoutPhase::WarmWait => fanout_next(m),
        FanoutPhase::SampleWait => fanout_next(
            FanoutModel {
                latencies_us: with_sample(
                    m.latencies_us,
                    ((now - m.began) / 1_000) as u128,
                ),
                ..m
            },
        ),
        _ => (
            FanoutModel {
                phase: FanoutPhase::Over,
                burst: Some((m.args.messages, (now - m.began) as u128)),
                ..m
            },
            ActionModel::Report,
        ),
    }
}

/// How many messages are waited for.
pub open spec fn awaited(m: FanoutModel) -> nat {
    if m.phase == FanoutPhase::BurstWait {
        m.args.messages as nat
    } else {
        1
    }
}

/// The measurement after something has happened, and what is then to be done.
pub open spec fn fanout_step(m: FanoutModel, event: FanoutEvent, now: Nanos) -> (
    FanoutModel,
    ActionModel,
) {
    match event {
        FanoutEvent::Routed(taken) => if taken {
            fanout_routed(m, now)
        } else if m.phase == FanoutPhase::WarmRoute {
            (m, ActionModel::Fail("扇出中枢未接管（成员源为空？）"@))
        } else {
            (m, ActionModel::Fail("热路径 route 不应失败"@))
        },
        FanoutEvent::Seen(p) => if m.phase == FanoutPhase::SampleBase || m.phase
            == FanoutPhase::BurstBase {
            fanout_begins(m, p, now)
        } else if served(m.base, awaited(m), m.args.members as nat, p) {
            fanout_served(m, now)
        } else if now < m.deadline {
            (m, ActionModel::Look)
        } else {
            (m, ActionModel::Fail("扇出未在 60s 内完成（卡死或计数对不上）"@))
        },
    }
}

/// What can happen while the measurement does what it is doing.
pub open spec fn can_come(phase: FanoutPhase, event: FanoutEvent) -> bool {
    match event {
        FanoutEvent::Routed(_) => phase == FanoutPhase::WarmRoute || phase
            == FanoutPhase::SampleRoute || phase == FanoutPhase::BurstRoute,
        FanoutEvent::Seen(_) => phase == FanoutPhase::WarmWait || phase == FanoutPhase::SampleBase
            || phase == FanoutPhase::SampleWait || phase == FanoutPhase::BurstBase || phase
            == FanoutPhase::BurstWait,
    }
}

/// Every message has a number of its own: the numbers count up from zero.
pub proof fn law_messages_are_numbered(m: FanoutModel, event: FanoutEvent, now: Nanos)
    requires
        can_come(m.phase, event),
        m.next_msg_id < u64::MAX,
    ensures
        fanout_step(m, event, now).0.next_msg_id == m.next_msg_id + if event
            == FanoutEvent::Routed(true) {
            1int
        } else {
            0
        },
        fanout_step(m, event, now).1 matches ActionModel::Route(id) ==> id == fanout_step(
            m,
            event,
            now,
        ).0.next_msg_id,
{
}

impl Fanout {
    /// How many messages are still to be sent.
    spec fn ahead(&self) -> int {
        let samples = self.args.samples - self.latencies_us@.len();
        match self.phase {
            FanoutPhase::WarmRoute => 1 + samples + self.args.messages,
            FanoutPhase::WarmWait => samples + self.args.messages,
            FanoutPhase::SampleBase | FanoutPhase::SampleRoute => samples + self.args.messages,
            FanoutPhase::SampleWait => samples - 1 + self.args.messages,
            FanoutPhase::BurstBase | FanoutPhase::BurstRoute => self.args.messages - self.sent,
            FanoutPhase::BurstWait | FanoutPhase::Over => 0,
        }
    }

    /// The samples are in order, and there are numbers for what is still to be sent.
    pub closed spec fn wf(&self) -> bool {
        &&& ascending(self.latencies_us@)
        &&& self.latencies_us@.len() <= self.args.samples
        &&& self.next_msg_id + self.ahead() <= u64::MAX
        &&& match self.phase {
            FanoutPhase::WarmRoute | FanoutPhase::WarmWait => self.sent == 0,
            FanoutPhase::SampleBase
            | FanoutPhase::SampleRoute
            | FanoutPhase::SampleWait => self.sent == 0 && self.latencies_us@.len()
                < self.args.samples,
            FanoutPhase::BurstBase => self.sent == 0 && self.args.messages > 0,
            FanoutPhase::BurstRoute => self.sent < self.args.messages,
            FanoutPhase::BurstWait | FanoutPhase::Over => true,
        }
    }

    /// The measurement begins, unless the settings are wrong.
    pub fn group_fanout(args: &GroupFanoutArgs) -> (r: Result<(Self, FanoutAction), &'static str>)
        requires
            1 + args.samples + args.messages <= u64::MAX,
        ensures
            match fanout_settings_error(*args) {
                Some(text) => r is Err && r->Err_0@ == text,
                None => {
                    &&& r is Ok
                    &&& r->Ok_0.0.wf()
                    &&& r->Ok_0.0@ == (FanoutModel {
                        args: *args,
                        phase: FanoutPhase::WarmRoute,
                        next_msg_id: 0,
                        base: Progress { fanned: 0, done: 0 },
                        began: 0,
                        deadline: 0,
                        sent: 0,
                        latencies_us: Seq::empty(),
                        burst: None,
                    })
                    &&& r->Ok_0.1@ == ActionModel::Route(0)
                },
            },
    {
        if args.slow > args.members {
            return Err("--slow 不能超过 --members");
        }
        if args.capacity < 1 {
            return Err("--capacity 至少为 1");
        }
        if args.payload < 1 {
            return Err("--payload 至少为 1 字节");
        }
        let fanout = Fanout {
            args: *args,
            phase: FanoutPhase::WarmRoute,
            next_msg_id: 0,
            base: Progress { fanned: 0, done: 0 },
            began: 0,
            deadline: 0,
            sent: 0,
            latencies_us: Vec::new(),
            burst: None,
        };
        assert(fanout@ =~= FanoutModel {
            args: *args,
            phase: FanoutPhase::WarmRoute,
            next_msg_id: 0,
            base: Progress { fanned: 0, done: 0 },
            began: 0,
            deadline: 0,
            sent: 0,
            latencies_us: Seq::empty(),
            burst: None,
        });
        Ok((fanout, FanoutAction::Route(0)))
    }

    fn next_part(&mut self) -> (r: FanoutAction)
        requires
            ascending(old(self).latencies_us@),
            old(self).latencies_us@.len() <= old(self).args.samples,
            old(self).sent == 0,
            old(self).next_msg_id + (old(self).args.samples - old(self).latencies_us@.len())
                + old(self).args.messages <= u64::MAX,
        ensures
            final(self).wf(),
            (final(self)@, r@) == fanout_next(old(self)@),
    {
        if self.latencies_us.len() < self.args.samples {
            self.phase = FanoutPhase::SampleBase;
            FanoutAction::Look
        } else if self.args.messages > 0 {
            self.phase = FanoutPhase::BurstBase;
            FanoutAction::Look
        } else {
            self.phase = FanoutPhase::Over;
            FanoutAction::Report
        }
    }

    fn add_sample(&mut self, us: u128)
        requires
            ascending(old(self).latencies_us@),
        ensures
            ascending(final(self).latencies_us@),
            final(self).latencies_us@.len() == old(self).latencies_us@.len() + 1,
            final(self)@ == (FanoutModel {
                latencies_us: with_sample(old(self)@.latencies_us, us),
                ..old(self)@
            }),
    {
        let ghost s = self.latencies_us@;
        let mut at: usize = self.latencies_us.len();
        assert(s.take(at as int) =~= s);
        while at > 0 && self.latencies_us[at - 1] > us
            invariant
                at <= s.len(),
                s == self.latencies_us@,
                place_of(s.take(at as int), us) == place_of(s, us),
            decreases at,
        {
            assert(s.take(at as int).drop_last() =~= s.take(at - 1));
            at = at - 1;
        }
        proof {
            lemma_place(s, us);
            law_samples_are_sorted(s, us);
        }
        self.latencies_us.insert(at, us);
        assert(self.latencies_us@ =~= with_sample(s, us));
    }

    fn on_routed(&mut self, now: Nanos) -> (r: FanoutAction)
        requires
            old(self).wf(),
            can_come(old(self)@.phase, FanoutEvent::Routed(true)),
            now + BENCH_DEADLINE <= u128::MAX,
        ensures
            final(self).wf(),
            (final(self)@, r@) == fanout_routed(old(self)@, now),
    {
        self.next_msg_id = self.next_msg_id + 1;
        match self.phase {
            FanoutPhase::WarmRoute => {
                self.phase = FanoutPhase::WarmWait;
            },
            FanoutPhase::SampleRoute => {
                self.phase = FanoutPhase::SampleWait;
            },
            _ => {
                self.sent = self.sent + 1;
                if self.sent < self.args.messages {
                    return FanoutAction::Route(self.next_msg_id);
                }
                self.phase = FanoutPhase::BurstWait;
            },
        }
        self.deadline = now + BENCH_DEADLINE;
        FanoutAction::Look
    }

    fn on_served(&mut self, now: Nanos) -> (r: FanoutAction)
        requires
            old(self).wf(),
            old(self).phase == FanoutPhase::WarmWait || old(self).phase == FanoutPhase::SampleWait
                || old(self).phase == FanoutPhase::BurstWait,
            old(self).phase != FanoutPhase::WarmWait ==> old(self).began <= now,
        ensures
            final(self).wf(),
            (final(self)@, r@) == fanout_served(old(self)@, now),
    {
        match self.phase {
            FanoutPhase::WarmWait => self.next_part(),
            FanoutPhase::SampleWait => {
                self.add_sample((now - self.began) / 1_000);
                self.next_part()
            },
            _ => {
                self.phase = FanoutPhase::Over;
                self.burst = Some((self.args.messages, now - self.began));
                FanoutAction::Report
            },
        }
    }

    /// Something has happened: what is to be done.
    pub fn step(&mut self, event: FanoutEvent, now: Nanos) -> (r: FanoutAction)
        requires
            old(self).wf(),
            can_come(old(self)@.phase, event),
            old(self)@.began <= now,
            now + BENCH_DEADLINE <= u128::MAX,
        ensures
            final(self).wf(),
            (final(self)@, r@) == fanout_step(old(self)@, event, now),
    {
        match event {
            FanoutEvent::Routed(taken) => {
                if taken {
                    self.on_routed(now)
                } else if matches!(self.phase, FanoutPhase::WarmRoute) {
                    FanoutAction::Fail("扇出中枢未接管（成员源为空？）")
                } else {
                    FanoutAction::Fail("热路径 route 不应失败")
                }
            },
            FanoutEvent::Seen(p) => {
                match self.phase {
                    FanoutPhase::SampleBase | FanoutPhase::BurstBase => {
                        self.phase = if matches!(self.phase, FanoutPhase::SampleBase) {
                            FanoutPhase::SampleRoute
                        } else {
                            FanoutPhase::BurstRoute
                        };
                        self.base = p;
                        self.began = now;
                        FanoutAction::Route(self.next_msg_id)
                    },
                    _ => {
                        let msgs: u64 = if matches!(self.phase, FanoutPhase::BurstWait) {
                            self.args.messages
                        } else {
                            1
                        };
                        match wait_fanout(
                            self.base,
                            msgs,
                            self.args.members,
                            p,
                            now,
                            self.deadline,
                        ) {
                            WaitVerdict::Served => self.on_served(now),
                            WaitVerdict::Again => FanoutAction::Look,
                            WaitVerdict::TooLate => FanoutAction::Fail(
                                "扇出未在 60s 内完成（卡死或计数对不上）",
                            ),
                        }
                    },
                }
            },
        }
    }

    /// The samples in order, in microseconds.
    #[must_use]
    pub fn latencies_us(&self) -> (r: &Vec<u128>)
        ensures
            r@ == self@.latencies_us,
    {
        &self.latencies_us
    }

    /// How many messages the burst had, and how long it took.
    #[must_use]
    pub fn burst(&self) -> (r: Option<(u64, Nanos)>)
        ensures
            r == self@.burst,
    {
        self.burst
    }
}

// ---------------------------------------------------------------------------
// The report
// ---------------------------------------------------------------------------

/// The first lines of a report.
pub open spec fn fanout_head(args: GroupFanoutArgs, cores: usize, setup: Nanos) -> Seq<Seq<char>> {
    seq![
        "──── im-bench · group-fanout ────────────────────"@,
        "成员            : "@
            + grouped(args.members as nat)
            + "（慢消费者 "@
            + grouped(args.slow as nat)
            + " 个：容量 1、永不排空）"@,
        "正常成员通道    : 容量 "@
            + decimal(args.capacity as nat)
            + " + 持续排空 task"@,
        "消息载荷        : "@
            + decimal(args.payload as nat)
            + " 字节"@,
        "环境            : 逻辑核 "@
            + decimal(cores as nat),
        "装配            : "@
            + grouped(args.members as nat)
            + " 会话 + 排空 task，耗时 "@
            + us_text((setup / 1_000) as nat),
    ]
}

/// The lines of the samples.
pub open spec fn fanout_latencies(s: Seq<u128>) -> Seq<Seq<char>> {
    if s.len() > 0 {
        seq![
            "单条扇出延迟（"@
                + decimal(s.len() as nat)
                + " 次逐条采样，含 route 入队 + actor 全程）："@,
            "  min "@
                + us_text(s[0] as nat)
                + "   P50 "@
                + us_text(nearest(s, 50) as nat)
                + "   P90 "@
                + us_text(nearest(s, 90) as nat)
                + "   P99 "@
                + us_text(nearest(s, 99) as nat)
                + "   max "@
                + us_text(s.last() as nat),
        ]
    } else {
        Seq::empty()
    }
}

/// How many messages there were in a second.
pub open spec fn message_rate(messages: nat, elapsed: nat) -> nat {
    let us = elapsed / 1_000;
    messages * 1_000_000 / if us < 1 {
        1
    } else {
        us
    }
}

/// The lines of the burst.
pub open spec fn fanout_burst(args: GroupFanoutArgs, burst: Option<(u64, Nanos)>) -> Seq<
    Seq<char>,
> {
    match burst {
        Some((messages, elapsed)) => {
            let rate = message_rate(messages as nat, elapsed as nat);
            seq![
                "持续扇出（"@
                    + decimal(messages as nat)
                    + " 条背靠背灌入）："@,
                "  消息吞吐      : "@
                    + grouped(rate as nat)
                    + " 条/秒"@,
                "  成员投递      : "@
                    + grouped((rate * args.members as nat) as nat)
                    + " 人次/秒"@,
            ]
        },
        None => Seq::empty(),
    }
}

/// Why the books do not balance.
pub open spec fn fanout_error(args: GroupFanoutArgs, stats: GroupStats) -> Seq<char> {
    "计数对不上：fanned×成员数="@
        + decimal((stats.fanned * args.members) as nat)
        + "，delivered+skipped+offline="@
        + decimal((stats.delivered + stats.skipped + stats.offline) as nat)
}

/// The last lines of a report.
pub open spec fn fanout_end(args: GroupFanoutArgs, stats: GroupStats) -> Seq<Seq<char>> {
    let books =
        "计数对账        : fanned="@
            + grouped(stats.fanned as nat)
            + " delivered="@
            + grouped(stats.delivered as nat)
            + " skipped="@
            + grouped(stats.skipped as nat)
            + " offline="@
            + grouped(stats.offline as nat);
    let slow =
        "  慢消费者隔离  : skipped="@
            + grouped(stats.skipped as nat)
            + "（首条送达后全部跳过，其余成员不受影响）"@;
    let end = seq![
        "口径说明        : 不含网络/DB/握手（内存 channel sink + 内存成员源）"@,
        "                  原始数据归档于 docs/13-group-fanout.md"@,
    ];
    if args.slow > 0 {
        seq![books, slow] + end
    } else {
        seq![books] + end
    }
}

fn report_latencies(latencies: &Vec<u128>, out: &mut Vec<String>)
    ensures
        line_views(final(out)@) == line_views(old(out)@) + fanout_latencies(latencies@),
{
    let ghost before = line_views(out@);
    if latencies.len() > 0 {
        let mut s = String::from_str("单条扇出延迟（");
        push_decimal(&mut s, latencies.len() as u128);
        s.append(" 次逐条采样，含 route 入队 + actor 全程）：");
        out.push(s);
        let mut s = String::from_str("  min ");
        s.append(fmt_us(latencies[0]).as_str());
        s.append("   P50 ");
        s.append(fmt_us(percentile(latencies, 50)).as_str());
        s.append("   P90 ");
        s.append(fmt_us(percentile(latencies, 90)).as_str());
        s.append("   P99 ");
        s.append(fmt_us(percentile(latencies, 99)).as_str());
        s.append("   max ");
        s.append(fmt_us(latencies[latencies.len() - 1]).as_str());
        out.push(s);
    }
    assert(line_views(out@) =~= before + fanout_latencies(latencies@));
}

fn report_burst(args: &GroupFanoutArgs, burst: Option<(u64, Nanos)>, out: &mut Vec<String>)
    requires
        burst matches Some((messages, elapsed)) ==> message_rate(messages as nat, elapsed as nat)
            * args.members <= u128::MAX,
    ensures
        line_views(final(out)@) == line_views(old(out)@) + fanout_burst(*args, burst),
{
    let ghost before = line_views(out@);
    if let Some((messages, elapsed)) = burst {
        let us: u128 = if elapsed / 1_000 < 1 {
            1
        } else {
            elapsed / 1_000
        };
        let rate: u128 = messages as u128 * 1_000_000 / us;
        let mut s = String::from_str("持续扇出（");
        push_decimal(&mut s, messages as u128);
        s.append(" 条背靠背灌入）：");
        out.push(s);
        let mut s = String::from_str("  消息吞吐      : ");
        s.append(thousands(rate as u128).as_str());
        s.append(" 条/秒");
        out.push(s);
        let mut s = String::from_str("  成员投递      : ");
        s.append(thousands((rate * args.members as u128) as u128).as_str());
        s.append(" 人次/秒");
        out.push(s);
    }
    assert(line_views(out@) =~= before + fanout_burst(*args, burst));
}

/// The lines of a report. Books that do not balance are an error, which comes with
/// the lines before it.
#[must_use]
pub fn report(
    args: &GroupFanoutArgs,
    cores: usize,
    setup: Nanos,
    latencies: &Vec<u128>,
    burst: Option<(u64, Nanos)>,
    stats: &GroupStats,
) -> (r: (Vec<String>, Result<(), String>))
    requires
        stats.delivered + stats.skipped + stats.offline <= u64::MAX,
        burst matches Some((messages, elapsed)) ==> message_rate(messages as nat, elapsed as nat)
            * args.members <= u128::MAX,
    ensures
        ({
            let lines = fanout_head(*args, cores, setup) + fanout_latencies(latencies@)
                + fanout_burst(*args, burst);
            if stats.fanned * args.members == stats.delivered + stats.skipped + stats.offline {
                r.1 is Ok && line_views(r.0@) == lines + fanout_end(*args, *stats)
            } else {
                r.1 is Err && r.1->Err_0@ == fanout_error(*args, *stats) && line_views(r.0@) == lines
            }
        }),
{
    let mut out: Vec<String> = Vec::new();
    out.push("──── im-bench · group-fanout ────────────────────".to_owned());
    let mut s = String::from_str("成员            : ");
    s.append(thousands(args.members as u128).as_str());
    s.append("（慢消费者 ");
    s.append(thousands(args.slow as u128).as_str());
    s.append(" 个：容量 1、永不排空）");
    out.push(s);
    let mut s = String::from_str("正常成员通道    : 容量 ");
    push_decimal(&mut s, args.capacity as u128);
    s.append(" + 持续排空 task");
    out.push(s);
    let mut s = String::from_str("消息载荷        : ");
    push_decimal(&mut s, args.payload as u128);
    s.append(" 字节");
    out.push(s);
    let mut s = String::from_str("环境            : 逻辑核 ");
    push_decimal(&mut s, cores as u128);
    out.push(s);
    let mut s = String::from_str("装配            : ");
    s.append(thousands(args.members as u128).as_str());
    s.append(" 会话 + 排空 task，耗时 ");
    s.append(fmt_us(setup / 1_000).as_str());
    out.push(s);
    assert(line_views(out@) =~= fanout_head(*args, cores, setup));
    report_latencies(latencies, &mut out);
    report_burst(args, burst, &mut out);
    let ghost lines = line_views(out@);
    let progress = progress(stats);
    assert(stats.fanned * args.members <= u64::MAX * u64::MAX) by (nonlinear_arith)
        requires
            stats.fanned <= u64::MAX,
            args.members <= u64::MAX,
    ;
    if stats.fanned as u128 * args.members as u128 != progress.done as u128 {
        let mut s = String::from_str("计数对不上：fanned×成员数=");
        push_decimal(&mut s, (stats.fanned as u128 * args.members as u128) as u128);
        s.append("，delivered+skipped+offline=");
        push_decimal(&mut s, progress.done as u128);
        return (out, Err(s));
    }
    let mut s = String::from_str("计数对账        : fanned=");
    s.append(thousands(stats.fanned as u128).as_str());
    s.append(" delivered=");
    s.append(thousands(stats.delivered as u128).as_str());
    s.append(" skipped=");
    s.append(thousands(stats.skipped as u128).as_str());
    s.append(" offline=");
    s.append(thousands(stats.offline as u128).as_str());
    out.push(s);
    if args.slow > 0 {
        let mut s = String::from_str("  慢消费者隔离  : skipped=");
        s.append(thousands(stats.skipped as u128).as_str());
        s.append("（首条送达后全部跳过，其余成员不受影响）");
        out.push(s);
    }
    out.push("口径说明        : 不含网络/DB/握手（内存 channel sink + 内存成员源）".to_owned());
    out.push("                  原始数据归档于 docs/13-group-fanout.md".to_owned());
    assert(line_views(out@) =~= lines + fanout_end(*args, *stats));
    (out, Ok(()))
}

/// A sample is the time from the beginning of its part to when every member was
/// served: for a part that began at `t0` with the group at `p0`, it is taken when one
/// message more was given to every member, and by nothing less.
pub proof fn law_sample_is_the_time_to_serve(
    m: FanoutModel,
    p0: Progress,
    t0: Nanos,
    t1: Nanos,
    p: Progress,
    t2: Nanos,
)
    requires
        m.phase == FanoutPhase::SampleBase,
        m.next_msg_id < u64::MAX,
        ascending(m.latencies_us),
        t0 <= t1 <= t2,
        t1 + 60_000_000_000 <= u128::MAX,
    ensures
        ({
            let (m1, a1) = fanout_step(m, FanoutEvent::Seen(p0), t0);
            let (m2, a2) = fanout_step(m1, FanoutEvent::Routed(true), t1);
            let (m3, a3) = fanout_step(m2, FanoutEvent::Seen(p), t2);
            let done = p.fanned >= p0.fanned + 1 && p.done >= p0.done + m.args.members;
            &&& a1 == ActionModel::Route(m.next_msg_id)
            &&& a2 == ActionModel::Look
            &&& done ==> m3.latencies_us.to_multiset() == m.latencies_us.to_multiset().insert(
                ((t2 - t0) / 1_000) as u128,
            ) && ascending(m3.latencies_us)
            &&& !done ==> m3 == m2
            &&& !done ==> (a3 == ActionModel::Look <==> t2 < t1 + 60_000_000_000)
            &&& !done ==> (a3 is Fail <==> t2 >= t1 + 60_000_000_000)
        }),
{
    law_samples_are_sorted(m.latencies_us, ((t2 - t0) / 1_000) as u128);
}

/// The burst is timed from its beginning to when every message was given to every
/// member.
pub proof fn law_burst_is_timed(m: FanoutModel, p0: Progress, t0: Nanos, p: Progress, now: Nanos)
    requires
        m.phase == FanoutPhase::BurstBase,
        t0 <= now,
    ensures
        ({
            let (m1, a1) = fanout_step(m, FanoutEvent::Seen(p0), t0);
            let waiting = FanoutModel { phase: FanoutPhase::BurstWait, ..m1 };
            let (m2, a2) = fanout_step(waiting, FanoutEvent::Seen(p), now);
            let done = p.fanned >= p0.fanned + m.args.messages && p.done >= p0.done
                + m.args.messages * m.args.members;
            &&& a1 == ActionModel::Route(m.next_msg_id)
            &&& m1.phase == FanoutPhase::BurstRoute
            &&& done ==> m2.burst == Some((m.args.messages, (now - t0) as u128)) && a2
                == ActionModel::Report
            &&& !done ==> m2 == waiting && !(a2 == ActionModel::Report)
        }),
{
}

/// In a burst the messages are sent one after the other without a look, as many as
/// were asked for, and then they are waited for; when it began is not forgotten.
pub proof fn law_burst_sends_every_message(m: FanoutModel, now: Nanos)
    requires
        m.phase == FanoutPhase::BurstRoute,
        m.sent < m.args.messages,
        m.next_msg_id < u64::MAX,
        now + 60_000_000_000 <= u128::MAX,
    ensures
        ({
            let (t, action) = fanout_step(m, FanoutEvent::Routed(true), now);
            &&& t.sent == m.sent + 1
            &&& t.began == m.began && t.base == m.base
            &&& t.sent < m.args.messages ==> action == ActionModel::Route(
                (m.next_msg_id + 1) as u64,
            ) && t.phase == FanoutPhase::BurstRoute
            &&& t.sent == m.args.messages ==> action == ActionModel::Look && t.phase
                == FanoutPhase::BurstWait && t.deadline == now + 60_000_000_000
        }),
{
}

/// The measurement is reported when all samples were taken and the burst, if there is
/// one, is over; a message that is not taken ends it without a report.
pub proof fn law_report_comes_last(m: FanoutModel, event: FanoutEvent, now: Nanos)
    requires
        can_come(m.phase, event),
        ascending(m.latencies_us),
        m.phase == FanoutPhase::WarmWait ==> m.latencies_us.len() == 0,
        m.phase == FanoutPhase::BurstBase || m.phase == FanoutPhase::BurstRoute || m.phase
            == FanoutPhase::BurstWait ==> m.latencies_us.len() >= m.args.samples,
    ensures
        ({
            let (t, action) = fanout_step(m, event, now);
            &&& action == ActionModel::Report ==> t.latencies_us.len() >= m.args.samples && (
            m.args.messages > 0 ==> t.burst is Some)
            &&& event == FanoutEvent::Routed(false) <==> event is Routed && action is Fail
            &&& t.args == m.args
        }),
{
    if m.phase == FanoutPhase::SampleWait {
        law_samples_are_sorted(m.latencies_us, ((now - m.began) / 1_000) as u128);
    }
}

/// The rate of messages is how many there were in a second, rounded down, by the
/// whole microseconds that they took.
pub proof fn law_rate_of_messages(messages: nat, elapsed: nat)
    requires
        elapsed >= 1_000,
    ensures
        message_rate(messages, elapsed) * (elapsed / 1_000) <= messages * 1_000_000 < (message_rate(
            messages,
            elapsed,
        ) + 1) * (elapsed / 1_000),
{
    let us = elapsed / 1_000;
    let x = messages * 1_000_000;
    vstd::arithmetic::div_mod::lemma_fundamental_div_mod(x as int, us as int);
    assert(message_rate(messages, elapsed) * us <= x < (message_rate(messages, elapsed) + 1) * us)
        by (nonlinear_arith)
        requires
            x as int == us as int * (x as int / us as int) + x as int % us as int,
            0 <= x as int % (us as int) < us,
            message_rate(messages, elapsed) == x as int / us as int,
    ;
}

/// What a report says of samples that rise: how many there are, the smallest, the
/// largest, and the percentiles in between; and of a burst its rates.
pub proof fn law_report_of_a_fanout(
    args: GroupFanoutArgs,
    s: Seq<u128>,
    messages: u64,
    elapsed: Nanos,
)
    requires
        s.len() > 0,
    ensures
        fanout_latencies(s).len() == 2,
        fanout_latencies(s)[1] == "  min "@ + us_text(s[0] as nat) + "   P50 "@ + us_text(
            nearest(s, 50) as nat,
        ) + "   P90 "@ + us_text(nearest(s, 90) as nat) + "   P99 "@ + us_text(
            nearest(s, 99) as nat,
        ) + "   max "@ + us_text(s[s.len() - 1] as nat),
        fanout_burst(args, Some((messages, elapsed)))[1] == "  消息吞吐      : "@ + grouped(
            message_rate(messages as nat, elapsed as nat),
        ) + " 条/秒"@,
        fanout_burst(args, Some((messages, elapsed)))[2] == "  成员投递      : "@ + grouped(
            message_rate(messages as nat, elapsed as nat) * args.members as nat,
        ) + " 人次/秒"@,
        fanout_burst(args, None).len() == 0,
{
}

/// The settings with which there is a measurement.
pub proof fn law_settings_of_a_fanout(args: GroupFanoutArgs)
    ensures
        fanout_settings_error(args) is None <==> args.slow <= args.members && args.capacity >= 1
            && args.payload >= 1,
{
}

/// The end of a report gives the books as they are, and those of the slow members where
/// there are any; books that do not balance are told with both sums.
pub proof fn law_report_gives_the_books(args: GroupFanoutArgs, stats: GroupStats)
    ensures
        fanout_end(args, stats)[0] == "计数对账        : fanned="@ + grouped(stats.fanned as nat)
            + " delivered="@ + grouped(stats.delivered as nat) + " skipped="@ + grouped(
            stats.skipped as nat,
        ) + " offline="@ + grouped(stats.offline as nat),
        fanout_end(args, stats).len() == if args.slow > 0 {
            4int
        } else {
            3
        },
        fanout_error(args, stats) == "计数对不上：fanned×成员数="@ + decimal(
            (stats.fanned * args.members) as nat,
        ) + "，delivered+skipped+offline="@ + decimal(
            (stats.delivered + stats.skipped + stats.offline) as nat,
        ),
{
}

} // verus!
