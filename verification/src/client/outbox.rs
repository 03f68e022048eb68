//! The messages that were sent and not confirmed: each is sent again, after ever
//! longer waits, until it is confirmed or given up.

use bytes::Bytes;
use vstd::prelude::*;
use crate::client::message::{Msg, MsgModel};
use crate::octets::bytes_content;

verus! {

/// A point in time, or a stretch of it, in nanoseconds.
pub type Nanos = u128;

/// The longest wait before a message is sent again: thirty seconds.
pub const RETRY_DELAY_CAP: Nanos = 30_000_000_000;

/// A stretch of time doubled `n` times.
pub open spec fn doubled(rto: nat, n: nat) -> nat
    decreases n,
{
    if n == 0 {
        rto
    } else {
        2 * doubled(rto, (n - 1) as nat)
    }
}

/// How long to wait after a message was sent `attempts` times: the first wait,
/// doubled with each further attempt, up to the longest.
pub open spec fn backoff(rto: nat, attempts: nat) -> nat {
    let n: nat = if attempts == 0 {
        0
    } else {
        (attempts - 1) as nat
    };
    if doubled(rto, n) < RETRY_DELAY_CAP {
        doubled(rto, n)
    } else {
        RETRY_DELAY_CAP as nat
    }
}

proof fn lemma_doubled_rises(rto: nat, m: nat, n: nat)
    requires
        m <= n,
    ensures
        doubled(rto, m) <= doubled(rto, n),
        rto >= 1 ==> doubled(rto, n) >= 1,
        rto == 0 ==> doubled(rto, n) == 0,
    decreases n,
{
    if m < n {
        lemma_doubled_rises(rto, m, (n - 1) as nat);
    } else if n > 0 {
        lemma_doubled_rises(rto, (m - 1) as nat, (n - 1) as nat);
    }
}

/// How long to wait after a message was sent `attempts` times.
#[must_use]
pub fn backoff_delay(rto: Nanos, attempts: u32) -> (r: Nanos)
    ensures
        r == backoff(rto as nat, attempts as nat),
        attempts >= 1 ==> r == if doubled(rto as nat, (attempts - 1) as nat) < RETRY_DELAY_CAP {
            doubled(rto as nat, (attempts - 1) as nat)
        } else {
            RETRY_DELAY_CAP as nat
        },
        r <= RETRY_DELAY_CAP,
        rto >= 1 ==> r >= 1,
{
    let n: u32 = if attempts == 0 {
        0
    } else {
        attempts - 1
    };
    proof {
        lemma_doubled_rises(rto as nat, 0, n as nat);
    }
    if rto == 0 {
        return 0;
    }
    let mut d: Nanos = rto;
    let mut i: u32 = 0;
    while i < n
        invariant
            i <= n,
            d == doubled(rto as nat, i as nat),
            backoff(rto as nat, attempts as nat) == if doubled(rto as nat, n as nat)
                < RETRY_DELAY_CAP {
                doubled(rto as nat, n as nat)
            } else {
                RETRY_DELAY_CAP as nat
            },
            attempts >= 1 ==> n == attempts - 1,
        decreases n - i,
    {
        if d >= RETRY_DELAY_CAP {
            proof {
                lemma_doubled_rises(rto as nat, i as nat, n as nat);
            }
            return RETRY_DELAY_CAP;
        }
        d = d * 2;
        i = i + 1;
        assert((i as nat - 1) as nat == (i - 1) as nat);
    }
    if d < RETRY_DELAY_CAP {
        d
    } else {
        RETRY_DELAY_CAP
    }
}

// ---------------------------------------------------------------------------
// What the outbox asks of the message store
// ---------------------------------------------------------------------------

/// A change of the message store.
#[derive(Debug, PartialEq, Eq)]
#[allow(inconsistent_fields)]
pub enum StoreAction {
    /// Keep a message that arrived.
    AppendIncoming(Msg),
    /// Keep the number up to which messages have arrived.
    SetSyncCursor(u64),
    /// A message that waited for its confirmation is confirmed.
    AckOutgoing {
        /// The sender's number.
        client_msg_id: u64,
        /// The server's number.
        msg_id: u64,
        /// The sender.
        from: u64,
        /// The recipient.
        to: u64,
        /// What it says.
        content: Bytes,
    },
    /// A waiting message was sent this often.
    SetAttempts {
        /// The sender's number.
        client_msg_id: u64,
        /// How often it was sent.
        attempts: u32,
    },
    /// A waiting message is given up.
    DropOutgoing {
        /// The sender's number.
        client_msg_id: u64,
    },
}

/// What a [`StoreAction`] says.
#[allow(inconsistent_fields)]
pub enum StoreActionModel {
    AppendIncoming(MsgModel),
    SetSyncCursor(u64),
    AckOutgoing { client_msg_id: u64, msg_id: u64, from: u64, to: u64, content: Seq<u8> },
    SetAttempts { client_msg_id: u64, attempts: u32 },
    DropOutgoing { client_msg_id: u64 },
}

impl View for StoreAction {
    type V = StoreActionModel;

    open spec fn view(&self) -> StoreActionModel {
        match *self {
            StoreAction::AppendIncoming(msg) => StoreActionModel::AppendIncoming(msg@),
            StoreAction::SetSyncCursor(cursor) => StoreActionModel::SetSyncCursor(cursor),
            StoreAction::AckOutgoing { client_msg_id, msg_id, from, to, content } => {
                StoreActionModel::AckOutgoing {
                    client_msg_id,
                    msg_id,
                    from,
                    to,
                    content: bytes_content(content),
                }
            },
            StoreAction::SetAttempts { client_msg_id, attempts } => StoreActionModel::SetAttempts {
                client_msg_id,
                attempts,
            },
            StoreAction::DropOutgoing { client_msg_id } => StoreActionModel::DropOutgoing {
                client_msg_id,
            },
        }
    }
}

/// What the actions of a vector say.
pub open spec fn action_views(v: Seq<StoreAction>) -> Seq<StoreActionModel> {
    v.map_values(|a: StoreAction| a@)
}

/// What the messages of a vector say.
pub open spec fn msg_views(v: Seq<Msg>) -> Seq<MsgModel> {
    v.map_values(|m: Msg| m@)
}

// ---------------------------------------------------------------------------
// The outbox
// ---------------------------------------------------------------------------

/// A message that was found waiting in the message store.
#[derive(Debug, Clone)]
pub struct Pending {
    /// The sender's number.
    pub client_msg_id: u64,
    /// The recipient.
    pub to: u64,
    /// What it says.
    pub content: Bytes,
    /// How often it was sent.
    pub attempts: u32,
}

/// A message that waits for its confirmation.
struct Inflight {
    client_msg_id: u64,
    to: u64,
    content: Bytes,
    attempts: u32,
    deadline: Nanos,
}

/// A message that waits for its confirmation.
#[verifier::ext_equal]
pub struct InflightModel {
    /// The sender's number.
    pub client_msg_id: u64,
    /// The recipient.
    pub to: u64,
    /// What it says.
    pub content: Seq<u8>,
    /// How often it was sent.
    pub attempts: u32,
    /// When it is sent again.
    pub deadline: Nanos,
}

impl View for Inflight {
    type V = InflightModel;

    closed spec fn view(&self) -> InflightModel {
        InflightModel {
            client_msg_id: self.client_msg_id,
            to: self.to,
            content: bytes_content(self.content),
            attempts: self.attempts,
            deadline: self.deadline,
        }
    }
}

/// The message as it goes out: the server decides the sender and assigns its own
/// number.
pub open spec fn outgoing(m: InflightModel) -> MsgModel {
    MsgModel { from: 0, to: m.to, msg_id: 0, client_msg_id: m.client_msg_id, content: m.content }
}

impl Inflight {
    fn to_msg(&self) -> (r: Msg)
        ensures
            r@ == outgoing(self@),
    {
        Msg {
            from: 0,
            to: self.to,
            msg_id: 0,
            client_msg_id: self.client_msg_id,
            content: self.content.clone(),
        }
    }
}

/// The messages that wait for their confirmation.
pub struct Outbox {
    inflight: Vec<Inflight>,
    retry_timeout: Nanos,
    retry_max_attempts: u32,
}

/// What an [`Outbox`] holds.
#[verifier::ext_equal]
pub struct OutboxModel {
    /// The messages, in the order in which they were sent first.
    pub inflight: Seq<InflightModel>,
    /// The wait before a message is sent again for the first time.
    pub rto: Nanos,
    /// How often a message is sent at most.
    pub max_attempts: u32,
}

impl View for Outbox {
    type V = OutboxModel;

    closed spec fn view(&self) -> OutboxModel {
        OutboxModel {
            inflight: self.inflight@.map_values(|m: Inflight| m@),
            rto: self.retry_timeout,
            max_attempts: self.retry_max_attempts,
        }
    }
}

/// What happens to the messages that are due.
#[verifier::ext_equal]
pub struct DueModel {
    /// The messages that go on waiting.
    pub kept: Seq<InflightModel>,
    /// The messages that are sent again.
    pub resends: Seq<MsgModel>,
    /// The numbers of those that are given up.
    pub failed: Seq<u64>,
    /// What the message store is told.
    pub actions: Seq<StoreActionModel>,
}

/// The message after it was sent once more.
pub open spec fn sent_again(m: InflightModel, now: Nanos, rto: Nanos) -> InflightModel {
    InflightModel {
        attempts: (m.attempts + 1) as u32,
        deadline: (now + backoff(rto as nat, (m.attempts + 1) as nat)) as u128,
        ..m
    }
}

/// What happens at `now`: a message that is due and has been sent as often as it
/// may is given up; one that is due otherwise is sent again.
pub open spec fn due_model(s: Seq<InflightModel>, now: Nanos, rto: Nanos, max: u32) -> DueModel
    decreases s.len(),
{
    if s.len() == 0 {
        DueModel {
            kept: Seq::empty(),
            resends: Seq::empty(),
            failed: Seq::empty(),
            actions: Seq::empty(),
        }
    } else {
        let d = due_model(s.drop_last(), now, rto, max);
        let m = s.last();
        if m.deadline > now {
            DueModel { kept: d.kept.push(m), ..d }
        } else if m.attempts >= max {
            DueModel {
                failed: d.failed.push(m.client_msg_id),
                actions: d.actions.push(
                    StoreActionModel::DropOutgoing { client_msg_id: m.client_msg_id },
                ),
                ..d
            }
        } else {
            let n = sent_again(m, now, rto);
            DueModel {
                kept: d.kept.push(n),
                resends: d.resends.push(outgoing(n)),
                actions: d.actions.push(
                    StoreActionModel::SetAttempts {
                        client_msg_id: n.client_msg_id,
                        attempts: n.attempts,
                    },
                ),
                ..d
            }
        }
    }
}

/// Where the first message with a number waits, or how many wait if there is
/// none.
pub open spec fn position_of(s: Seq<InflightModel>, client_msg_id: u64) -> nat
    decreases s.len(),
{
    if s.len() == 0 {
        0
    } else {
        let p = position_of(s.drop_last(), client_msg_id);
        if p < s.len() - 1 || s.last().client_msg_id == client_msg_id {
            p
        } else {
            s.len()
        }
    }
}

/// The position is that of the first message with the number.
pub proof fn lemma_position_of(s: Seq<InflightModel>, client_msg_id: u64)
    ensures
        position_of(s, client_msg_id) <= s.len(),
        position_of(s, client_msg_id) < s.len() ==> s[position_of(
            s,
            client_msg_id,
        ) as int].client_msg_id == client_msg_id,
        forall|i: int|
            0 <= i < position_of(s, client_msg_id) ==> (#[trigger] s[i]).client_msg_id
                != client_msg_id,
    decreases s.len(),
{
    if s.len() > 0 {
        let t = s.drop_last();
        lemma_position_of(t, client_msg_id);
        let p = position_of(t, client_msg_id);
        assert(p < t.len() ==> s[p as int] == t[p as int]);
        assert forall|i: int| 0 <= i < position_of(s, client_msg_id) implies (
        #[trigger] s[i]).client_msg_id != client_msg_id by {
            if i < t.len() {
                assert(s[i] == t[i]);
            }
        }
    }
}

/// The earliest of the points in time at which messages are sent again.
pub open spec fn earliest(s: Seq<InflightModel>) -> Option<Nanos>
    decreases s.len(),
{
    if s.len() == 0 {
        None
    } else {
        match earliest(s.drop_last()) {
            Some(t) => if t <= s.last().deadline {
                Some(t)
            } else {
                Some(s.last().deadline)
            },
            None => Some(s.last().deadline),
        }
    }
}

// ---------------------------------------------------------------------------
// Laws
// ---------------------------------------------------------------------------

/// Nothing is lost: every message goes on waiting or is reported as given up.
pub proof fn law_due_loses_nothing(s: Seq<InflightModel>, now: Nanos, rto: Nanos, max: u32, i: int)
    requires
        0 <= i < s.len(),
    ensures
        ({
            let d = due_model(s, now, rto, max);
            ||| d.failed.contains(s[i].client_msg_id)
            ||| exists|j: int|
                0 <= j < d.kept.len() && (#[trigger] d.kept[j]).client_msg_id == s[i].client_msg_id
                    && d.kept[j].to == s[i].to && d.kept[j].content == s[i].content
        }),
    decreases s.len(),
{
    let d = due_model(s, now, rto, max);
    let t = s.drop_last();
    let e = due_model(t, now, rto, max);
    if i < t.len() {
        law_due_loses_nothing(t, now, rto, max, i);
        assert(t[i] == s[i]);
        if e.failed.contains(s[i].client_msg_id) {
            let k = choose|k: int| 0 <= k < e.failed.len() && e.failed[k] == s[i].client_msg_id;
            assert(d.failed[k] == s[i].client_msg_id);
        } else {
            let j = choose|j: int|
                0 <= j < e.kept.len() && (#[trigger] e.kept[j]).client_msg_id == s[i].client_msg_id
                    && e.kept[j].to == s[i].to && e.kept[j].content == s[i].content;
            assert(d.kept[j] == e.kept[j]);
        }
    } else {
        if s[i].deadline <= now && s[i].attempts >= max {
            assert(d.failed.last() == s[i].client_msg_id);
        } else {
            assert(d.kept.last().client_msg_id == s[i].client_msg_id);
        }
    }
}

/// No message is sent more often than the limit says.
pub proof fn law_attempts_are_bounded(s: Seq<InflightModel>, now: Nanos, rto: Nanos, max: u32)
    requires
        forall|i: int| 0 <= i < s.len() ==> (#[trigger] s[i]).attempts <= max,
    ensures
        forall|i: int|
            0 <= i < due_model(s, now, rto, max).kept.len() ==> (#[trigger] due_model(
                s,
                now,
                rto,
                max,
            ).kept[i]).attempts <= max,
    decreases s.len(),
{
    if s.len() > 0 {
        let t = s.drop_last();
        assert forall|i: int| 0 <= i < t.len() implies (#[trigger] t[i]).attempts <= max by {
            assert(t[i] == s[i]);
        }
        law_attempts_are_bounded(t, now, rto, max);
        assert(s.last() == s[s.len() - 1]);
        let d = due_model(s, now, rto, max);
        let e = due_model(t, now, rto, max);
        assert forall|i: int| 0 <= i < d.kept.len() implies (#[trigger] d.kept[i]).attempts
            <= max by {
            if i < e.kept.len() {
                assert(d.kept[i] == e.kept[i]);
            }
        }
    }
}

/// What was due at a point in time is not due again at the same point.
pub proof fn law_nothing_is_due_twice(s: Seq<InflightModel>, now: Nanos, rto: Nanos, max: u32)
    requires
        rto >= 1,
        now + RETRY_DELAY_CAP <= u128::MAX,
    ensures
        forall|i: int|
            0 <= i < due_model(s, now, rto, max).kept.len() ==> (#[trigger] due_model(
                s,
                now,
                rto,
                max,
            ).kept[i]).deadline > now,
    decreases s.len(),
{
    if s.len() > 0 {
        law_nothing_is_due_twice(s.drop_last(), now, rto, max);
        let attempts = (s.last().attempts + 1) as nat;
        lemma_doubled_rises(rto as nat, 0, (attempts - 1) as nat);
        let d = due_model(s, now, rto, max);
        let e = due_model(s.drop_last(), now, rto, max);
        assert forall|i: int| 0 <= i < d.kept.len() implies (#[trigger] d.kept[i]).deadline
            > now by {
            if i < e.kept.len() {
                assert(d.kept[i] == e.kept[i]);
            }
        }
    }
}

/// The timer is set for the first message that is due: nothing waits exactly when
/// there is no such time; otherwise it is the deadline of a message that waits, and
/// no other message has an earlier one.
pub proof fn law_next_deadline_is_the_first(s: Seq<InflightModel>)
    ensures
        earliest(s) is None <==> s.len() == 0,
        earliest(s) matches Some(t) ==> {
            &&& exists|i: int| 0 <= i < s.len() && (#[trigger] s[i]).deadline == t
            &&& forall|i: int| 0 <= i < s.len() ==> t <= (#[trigger] s[i]).deadline
        },
    decreases s.len(),
{
    if s.len() > 0 {
        let t = s.drop_last();
        law_next_deadline_is_the_first(t);
        assert(s[s.len() - 1] == s.last());
        if t.len() > 0 {
            let i = choose|i: int|
                0 <= i < t.len() && (#[trigger] t[i]).deadline == earliest(t)->Some_0;
            assert(s[i] == t[i]);
            assert forall|i: int| 0 <= i < s.len() implies earliest(s)->Some_0 <= (
            #[trigger] s[i]).deadline by {
                if i < t.len() {
                    assert(s[i] == t[i]);
                }
            }
        }
    }
}

/// A timer that is set for the next deadline is neither early nor late: before it
/// there is nothing to do, and from it on there is.
pub proof fn law_timer_is_neither_early_nor_late(
    s: Seq<InflightModel>,
    now: Nanos,
    rto: Nanos,
    max: u32,
)
    requires
        s.len() > 0,
    ensures
        ({
            let d = due_model(s, now, rto, max);
            &&& now < earliest(s)->Some_0 ==> d.kept == s && d.resends.len() == 0 && d.failed.len()
                == 0 && d.actions.len() == 0
            &&& now >= earliest(s)->Some_0 ==> d.resends.len() + d.failed.len() > 0
        }),
    decreases s.len(),
{
    law_next_deadline_is_the_first(s);
    let t = s.drop_last();
    assert(s[s.len() - 1] == s.last());
    if t.len() > 0 {
        law_timer_is_neither_early_nor_late(t, now, rto, max);
        law_next_deadline_is_the_first(t);
    } else {
        assert(due_model(t, now, rto, max).resends.len() == 0);
    }
    if now < earliest(s)->Some_0 {
        assert(due_model(s, now, rto, max).kept =~= s);
    }
}

/// What becomes of the messages of one outbox becomes of them in any other: what is
/// due is found message by message.
pub proof fn law_due_is_message_by_message(
    a: Seq<InflightModel>,
    b: Seq<InflightModel>,
    now: Nanos,
    rto: Nanos,
    max: u32,
)
    ensures
        ({
            let d = due_model(a + b, now, rto, max);
            let x = due_model(a, now, rto, max);
            let y = due_model(b, now, rto, max);
            &&& d.kept == x.kept + y.kept
            &&& d.resends == x.resends + y.resends
            &&& d.failed == x.failed + y.failed
            &&& d.actions == x.actions + y.actions
        }),
    decreases b.len(),
{
    let x = due_model(a, now, rto, max);
    if b.len() == 0 {
        assert(a + b =~= a);
        assert(x.kept + due_model(b, now, rto, max).kept =~= x.kept);
        assert(x.resends + due_model(b, now, rto, max).resends =~= x.resends);
        assert(x.failed + due_model(b, now, rto, max).failed =~= x.failed);
        assert(x.actions + due_model(b, now, rto, max).actions =~= x.actions);
    } else {
        law_due_is_message_by_message(a, b.drop_last(), now, rto, max);
        assert((a + b).drop_last() =~= a + b.drop_last());
        assert((a + b).last() == b.last());
        let d = due_model(a + b, now, rto, max);
        let y = due_model(b, now, rto, max);
        assert(d.kept =~= x.kept + y.kept);
        assert(d.resends =~= x.resends + y.resends);
        assert(d.failed =~= x.failed + y.failed);
        assert(d.actions =~= x.actions + y.actions);
    }
}

/// What becomes of a message: before its deadline nothing; from then on it is sent
/// again as it was, while it may be, and the next wait begins; or else it is given
/// up. The message store learns of both.
pub proof fn law_one_message_is_due(m: InflightModel, now: Nanos, rto: Nanos, max: u32)
    requires
        now + RETRY_DELAY_CAP <= u128::MAX,
    ensures
        ({
            let d = due_model(seq![m], now, rto, max);
            if now < m.deadline {
                &&& d.kept == seq![m]
                &&& d.resends.len() == 0 && d.failed.len() == 0 && d.actions.len() == 0
            } else if m.attempts < max {
                &&& d.kept.len() == 1 && d.resends.len() == 1 && d.failed.len() == 0
                &&& d.kept[0].client_msg_id == m.client_msg_id
                &&& d.kept[0].to == m.to
                &&& d.kept[0].content == m.content
                &&& d.kept[0].attempts == m.attempts + 1
                &&& d.kept[0].deadline == now + backoff(rto as nat, (m.attempts + 1) as nat)
                &&& d.resends[0].client_msg_id == m.client_msg_id
                &&& d.resends[0].to == m.to
                &&& d.resends[0].content == m.content
                &&& d.actions == seq![
                    StoreActionModel::SetAttempts {
                        client_msg_id: m.client_msg_id,
                        attempts: (m.attempts + 1) as u32,
                    },
                ]
            } else {
                &&& d.kept.len() == 0 && d.resends.len() == 0
                &&& d.failed == seq![m.client_msg_id]
                &&& d.actions == seq![
                    StoreActionModel::DropOutgoing { client_msg_id: m.client_msg_id },
                ]
            }
        }),
{
    let s = seq![m];
    assert(s.drop_last() =~= Seq::<InflightModel>::empty());
    assert(s.last() == m);
    let d = due_model(s, now, rto, max);
    let none = due_model(s.drop_last(), now, rto, max);
    assert(none.kept.len() == 0 && none.resends.len() == 0 && none.failed.len() == 0
        && none.actions.len() == 0);
    assert(d.kept.len() <= 1);
}

/// The waits: the first is the given one, each further one is twice as long as the
/// one before, and none is longer than the longest.
pub proof fn law_waits_double_up_to_the_longest(rto: nat, attempts: nat)
    ensures
        backoff(rto, 1) == if rto < 30_000_000_000 {
            rto
        } else {
            30_000_000_000
        },
        attempts >= 1 ==> backoff(rto, attempts + 1) == if 2 * backoff(rto, attempts)
            < 30_000_000_000 {
            2 * backoff(rto, attempts)
        } else {
            30_000_000_000
        },
        backoff(rto, attempts) <= 30_000_000_000,
        backoff(rto, attempts) <= backoff(rto, attempts + 1),
{
    assert(doubled(rto, 0) == rto);
    if attempts >= 1 {
        let n = (attempts - 1) as nat;
        assert((attempts + 1 - 1) as nat == n + 1);
        assert((n + 1 - 1) as nat == n);
        assert(doubled(rto, n + 1) == 2 * doubled(rto, n));
    }
}

/// What a message store keeps of a message that waits.
#[verifier::ext_equal]
pub struct KeptModel {
    /// The recipient.
    pub to: u64,
    /// What it says.
    pub content: Seq<u8>,
    /// How often it was sent.
    pub attempts: u32,
}

/// What a message store keeps of the messages that wait, by their numbers.
pub open spec fn keeping(s: Seq<InflightModel>) -> Map<u64, KeptModel>
    decreases s.len(),
{
    if s.len() == 0 {
        Map::empty()
    } else {
        let m = s.last();
        keeping(s.drop_last()).insert(
            m.client_msg_id,
            KeptModel { to: m.to, content: m.content, attempts: m.attempts },
        )
    }
}

/// What a message store keeps after it was told something.
pub open spec fn after_action(kept: Map<u64, KeptModel>, action: StoreActionModel) -> Map<
    u64,
    KeptModel,
> {
    match action {
        StoreActionModel::AckOutgoing { client_msg_id, .. } => kept.remove(client_msg_id),
        StoreActionModel::DropOutgoing { client_msg_id } => kept.remove(client_msg_id),
        StoreActionModel::SetAttempts { client_msg_id, attempts } => if kept.contains_key(
            client_msg_id,
        ) {
            kept.insert(client_msg_id, KeptModel { attempts, ..kept[client_msg_id] })
        } else {
            kept
        },
        _ => kept,
    }
}

/// What a message store keeps after it was told things in this order.
pub open spec fn after_actions(kept: Map<u64, KeptModel>, actions: Seq<StoreActionModel>) -> Map<
    u64,
    KeptModel,
>
    decreases actions.len(),
{
    if actions.len() == 0 {
        kept
    } else {
        after_action(after_actions(kept, actions.drop_last()), actions.last())
    }
}

/// No two of the messages have the same number.
pub open spec fn numbers_differ(s: Seq<InflightModel>) -> bool {
    forall|i: int, j: int|
        0 <= i < j < s.len() ==> (#[trigger] s[i]).client_msg_id != (#[trigger] s[j]).client_msg_id
}

/// The action is about the message with this number.
spec fn concerns(action: StoreActionModel, id: u64) -> bool {
    match action {
        StoreActionModel::AckOutgoing { client_msg_id, .. } => client_msg_id == id,
        StoreActionModel::DropOutgoing { client_msg_id } => client_msg_id == id,
        StoreActionModel::SetAttempts { client_msg_id, .. } => client_msg_id == id,
        _ => false,
    }
}

proof fn lemma_keeping(s: Seq<InflightModel>, id: u64)
    requires
        numbers_differ(s),
    ensures
        keeping(s).contains_key(id) <==> exists|i: int|
            0 <= i < s.len() && (#[trigger] s[i]).client_msg_id == id,
        forall|i: int|
            0 <= i < s.len() && (#[trigger] s[i]).client_msg_id == id ==> keeping(s)[id]
                == (KeptModel { to: s[i].to, content: s[i].content, attempts: s[i].attempts }),
    decreases s.len(),
{
    if s.len() > 0 {
        let t = s.drop_last();
        assert(numbers_differ(t)) by {
            assert forall|i: int, j: int| 0 <= i < j < t.len() implies (
            #[trigger] t[i]).client_msg_id != (#[trigger] t[j]).client_msg_id by {
                assert(s[i] == t[i] && s[j] == t[j]);
            }
        }
        lemma_keeping(t, id);
        assert forall|i: int| 0 <= i < s.len() && (#[trigger] s[i]).client_msg_id == id implies
            keeping(s)[id] == (KeptModel {
            to: s[i].to,
            content: s[i].content,
            attempts: s[i].attempts,
        }) by {
            if i < t.len() {
                assert(t[i] == s[i]);
                assert(s[i].client_msg_id != s[s.len() - 1].client_msg_id);
            }
        }
        if exists|i: int| 0 <= i < s.len() && (#[trigger] s[i]).client_msg_id == id {
            let i = choose|i: int| 0 <= i < s.len() && (#[trigger] s[i]).client_msg_id == id;
            if i < t.len() {
                assert(t[i].client_msg_id == id);
            }
        }
        if keeping(t).contains_key(id) {
            let i = choose|i: int| 0 <= i < t.len() && (#[trigger] t[i]).client_msg_id == id;
            assert(s[i].client_msg_id == id);
        }
        assert(s[s.len() - 1] == s.last());
    }
}

proof fn lemma_other_is_untouched(
    kept: Map<u64, KeptModel>,
    actions: Seq<StoreActionModel>,
    id: u64,
    k: KeptModel,
)
    requires
        forall|i: int| 0 <= i < actions.len() ==> !concerns(#[trigger] actions[i], id),
    ensures
        after_actions(kept.insert(id, k), actions) == after_actions(kept, actions).insert(id, k),
    decreases actions.len(),
{
    if actions.len() > 0 {
        let t = actions.drop_last();
        assert forall|i: int| 0 <= i < t.len() implies !concerns(#[trigger] t[i], id) by {
            assert(t[i] == actions[i]);
        }
        lemma_other_is_untouched(kept, t, id, k);
        let a = actions[actions.len() - 1];
        assert(!concerns(a, id));
        let m = after_actions(kept, t);
        assert(after_action(m.insert(id, k), a) =~= after_action(m, a).insert(id, k));
    }
}

proof fn lemma_due_concerns(s: Seq<InflightModel>, now: Nanos, rto: Nanos, max: u32, id: u64)
    requires
        forall|i: int| 0 <= i < s.len() ==> (#[trigger] s[i]).client_msg_id != id,
    ensures
        ({
            let d = due_model(s, now, rto, max);
            &&& forall|i: int| 0 <= i < d.actions.len() ==> !concerns(#[trigger] d.actions[i], id)
            &&& forall|i: int| 0 <= i < d.kept.len() ==> (#[trigger] d.kept[i]).client_msg_id != id
        }),
    decreases s.len(),
{
    if s.len() > 0 {
        let t = s.drop_last();
        assert forall|i: int| 0 <= i < t.len() implies (#[trigger] t[i]).client_msg_id != id by {
            assert(t[i] == s[i]);
        }
        lemma_due_concerns(t, now, rto, max, id);
        assert(s[s.len() - 1].client_msg_id != id);
        let d = due_model(s, now, rto, max);
        let e = due_model(t, now, rto, max);
        assert forall|i: int| 0 <= i < d.actions.len() implies !concerns(
            #[trigger] d.actions[i],
            id,
        ) by {
            if i < e.actions.len() {
                assert(d.actions[i] == e.actions[i]);
            }
        }
        assert forall|i: int| 0 <= i < d.kept.len() implies (#[trigger] d.kept[i]).client_msg_id
            != id by {
            if i < e.kept.len() {
                assert(d.kept[i] == e.kept[i]);
            }
        }
    }
}

/// A message store that does what it is told keeps what waits: when messages are
/// due, what is given up is gone, and how often the others were sent is known. So
/// the outbox that is loaded after a crash holds the same messages.
pub proof fn law_store_keeps_what_is_due(
    s: Seq<InflightModel>,
    now: Nanos,
    rto: Nanos,
    max: u32,
)
    requires
        numbers_differ(s),
    ensures
        ({
            let d = due_model(s, now, rto, max);
            &&& numbers_differ(d.kept)
            &&& after_actions(keeping(s), d.actions) == keeping(d.kept)
        }),
    decreases s.len(),
{
    if s.len() > 0 {
        let t = s.drop_last();
        let m = s.last();
        let k = KeptModel { to: m.to, content: m.content, attempts: m.attempts };
        assert(numbers_differ(t)) by {
            assert forall|i: int, j: int| 0 <= i < j < t.len() implies (
            #[trigger] t[i]).client_msg_id != (#[trigger] t[j]).client_msg_id by {
                assert(s[i] == t[i] && s[j] == t[j]);
            }
        }
        assert forall|i: int| 0 <= i < t.len() implies (#[trigger] t[i]).client_msg_id
            != m.client_msg_id by {
            assert(t[i] == s[i]);
            assert(m == s[s.len() - 1]);
        }
        law_store_keeps_what_is_due(t, now, rto, max);
        lemma_due_concerns(t, now, rto, max, m.client_msg_id);
        let e = due_model(t, now, rto, max);
        let d = due_model(s, now, rto, max);
        lemma_other_is_untouched(keeping(t), e.actions, m.client_msg_id, k);
        assert(numbers_differ(d.kept)) by {
            assert forall|i: int, j: int| 0 <= i < j < d.kept.len() implies (
            #[trigger] d.kept[i]).client_msg_id != (#[trigger] d.kept[j]).client_msg_id by {
                assert(d.kept[i] == e.kept[i]);
                if j < e.kept.len() {
                    assert(d.kept[j] == e.kept[j]);
                }
            }
        }
        lemma_keeping(e.kept, m.client_msg_id);
        if m.deadline > now {
            assert(d.kept.drop_last() =~= e.kept);
        } else if m.attempts >= max {
            assert(d.actions.drop_last() =~= e.actions);
            assert(keeping(e.kept).insert(m.client_msg_id, k).remove(m.client_msg_id)
                =~= keeping(e.kept));
        } else {
            assert(d.actions.drop_last() =~= e.actions);
            assert(d.kept.drop_last() =~= e.kept);
            assert(after_actions(keeping(s), d.actions) =~= keeping(d.kept));
        }
    }
}

/// Where the message at `i` stood before the one at `p` was taken out.
spec fn stood_at(p: int, i: int) -> int {
    if i < p {
        i
    } else {
        i + 1
    }
}

proof fn lemma_removed_differ(s: Seq<InflightModel>, p: int)
    requires
        numbers_differ(s),
        0 <= p < s.len(),
    ensures
        numbers_differ(s.remove(p)),
{
    let t = s.remove(p);
    assert forall|i: int, j: int| 0 <= i < j < t.len() implies (#[trigger] t[i]).client_msg_id != (
    #[trigger] t[j]).client_msg_id by {
        assert(s[stood_at(p, i)].client_msg_id != s[stood_at(p, j)].client_msg_id);
    }
}

proof fn lemma_keeping_removed(s: Seq<InflightModel>, p: int, id: u64)
    requires
        numbers_differ(s),
        0 <= p < s.len(),
    ensures
        ({
            let left = keeping(s).remove(s[p].client_msg_id);
            let kept = keeping(s.remove(p));
            &&& left.contains_key(id) <==> kept.contains_key(id)
            &&& kept.contains_key(id) ==> left[id] == kept[id]
        }),
{
    let t = s.remove(p);
    lemma_removed_differ(s, p);
    lemma_keeping(s, id);
    lemma_keeping(t, id);
    if keeping(s).contains_key(id) && id != s[p].client_msg_id {
        let i = choose|i: int| 0 <= i < s.len() && (#[trigger] s[i]).client_msg_id == id;
        let j = if i < p {
            i
        } else {
            i - 1
        };
        assert(t[j] == s[i]);
    }
    if keeping(t).contains_key(id) {
        let j = choose|j: int| 0 <= j < t.len() && (#[trigger] t[j]).client_msg_id == id;
        let i = stood_at(p, j);
        assert(s[i] == t[j]);
        assert(s[i].client_msg_id != s[p].client_msg_id);
    }
}

/// A message store that does what it is told keeps what waits: a message that was
/// confirmed is gone, and no other.
pub proof fn law_store_forgets_what_is_confirmed(
    s: Seq<InflightModel>,
    client_msg_id: u64,
    msg_id: u64,
    from: u64,
)
    requires
        numbers_differ(s),
        position_of(s, client_msg_id) < s.len(),
    ensures
        ({
            let p = position_of(s, client_msg_id) as int;
            let action = StoreActionModel::AckOutgoing {
                client_msg_id,
                msg_id,
                from,
                to: s[p].to,
                content: s[p].content,
            };
            &&& numbers_differ(s.remove(p))
            &&& after_action(keeping(s), action) == keeping(s.remove(p))
        }),
{
    lemma_position_of(s, client_msg_id);
    let p = position_of(s, client_msg_id) as int;
    let t = s.remove(p);
    lemma_removed_differ(s, p);
    let left = keeping(s).remove(client_msg_id);
    assert forall|id: u64| left.contains_key(id) <==> #[trigger] keeping(t).contains_key(id) by {
        lemma_keeping_removed(s, p, id);
    }
    assert forall|id: u64| #[trigger] keeping(t).contains_key(id) implies left[id] == keeping(
        t,
    )[id] by {
        lemma_keeping_removed(s, p, id);
    }
    assert(left.dom() =~= keeping(t).dom()) by {
        assert forall|id: u64| left.dom().contains(id) == #[trigger] keeping(t).dom().contains(
            id,
        ) by {
            assert(left.contains_key(id) <==> keeping(t).contains_key(id));
        }
    }
    assert(left =~= keeping(t)) by {
        assert forall|id: u64| #[trigger] left.dom().contains(id) implies left[id] == keeping(
            t,
        )[id] by {
            assert(keeping(t).contains_key(id));
        }
    }
}

/// A confirmed message is not sent again: if no two waiting messages share a
/// number, none with the confirmed number is left.
pub proof fn law_confirmed_is_gone(s: Seq<InflightModel>, client_msg_id: u64)
    requires
        forall|i: int, j: int|
            0 <= i < j < s.len() ==> (#[trigger] s[i]).client_msg_id != (
            #[trigger] s[j]).client_msg_id,
    ensures
        ({
            let p = position_of(s, client_msg_id);
            let left = if p < s.len() {
                s.remove(p as int)
            } else {
                s
            };
            forall|i: int|
                0 <= i < left.len() ==> (#[trigger] left[i]).client_msg_id != client_msg_id
        }),
{
    lemma_position_of(s, client_msg_id);
    let p = position_of(s, client_msg_id);
    if p < s.len() {
        let left = s.remove(p as int);
        assert forall|i: int| 0 <= i < left.len() implies (#[trigger] left[i]).client_msg_id
            != client_msg_id by {
            if i < p {
                assert(left[i] == s[i]);
            } else {
                assert(left[i] == s[i + 1]);
                assert(s[p as int].client_msg_id == client_msg_id);
            }
        }
    }
}

/// What is to be done about the messages that are due.
pub struct Due {
    /// What the message store is told, in this order.
    pub actions: Vec<StoreAction>,
    /// The messages that are sent again.
    pub resends: Vec<Msg>,
    /// The numbers of those that are given up.
    pub failed: Vec<u64>,
}

impl Outbox {
    /// The outbox of the messages that were found waiting; each is due at once.
    #[must_use]
    pub fn load(
        pending: &Vec<Pending>,
        retry_timeout: Nanos,
        retry_max_attempts: u32,
        now: Nanos,
    ) -> (r: Self)
        ensures
            r@.rto == retry_timeout,
            r@.max_attempts == retry_max_attempts,
            r@.inflight.len() == pending@.len(),
            forall|i: int|
                0 <= i < pending@.len() ==> #[trigger] r@.inflight[i] == (InflightModel {
                    client_msg_id: pending@[i].client_msg_id,
                    to: pending@[i].to,
                    content: bytes_content(pending@[i].content),
                    attempts: pending@[i].attempts,
                    deadline: now,
                }),
    {
        let mut inflight: Vec<Inflight> = Vec::new();
        let mut i: usize = 0;
        while i < pending.len()
            invariant
                i <= pending@.len(),
                inflight@.len() == i,
                forall|k: int|
                    0 <= k < i ==> (#[trigger] inflight@[k])@ == (InflightModel {
                        client_msg_id: pending@[k].client_msg_id,
                        to: pending@[k].to,
                        content: bytes_content(pending@[k].content),
                        attempts: pending@[k].attempts,
                        deadline: now,
                    }),
            decreases pending@.len() - i,
        {
            let p = &pending[i];
            inflight.push(
                Inflight {
                    client_msg_id: p.client_msg_id,
                    to: p.to,
                    content: p.content.clone(),
                    attempts: p.attempts,
                    deadline: now,
                },
            );
            i = i + 1;
        }
        Outbox { inflight, retry_timeout, retry_max_attempts }
    }

    /// Takes in a message under the number that the message store gave it, and
    /// returns it as it goes out for the first time.
    pub fn enqueue(&mut self, client_msg_id: u64, to: u64, content: Bytes, now: Nanos) -> (r: Msg)
        requires
            now + old(self)@.rto <= u128::MAX,
        ensures
            ({
                let m = InflightModel {
                    client_msg_id,
                    to,
                    content: bytes_content(content),
                    attempts: 1,
                    deadline: (now + old(self)@.rto) as u128,
                };
                &&& final(self)@ == (OutboxModel {
                    inflight: old(self)@.inflight.push(m),
                    ..old(self)@
                })
                &&& r@ == outgoing(m)
            }),
    {
        let m = Inflight {
            client_msg_id,
            to,
            content,
            attempts: 1,
            deadline: now + self.retry_timeout,
        };
        let r = m.to_msg();
        self.inflight.push(m);
        assert(self@.inflight =~= old(self)@.inflight.push(m@));
        r
    }

    /// The message with a number is confirmed: it waits no longer. One that does
    /// not wait was confirmed before.
    pub fn ack(&mut self, client_msg_id: u64, msg_id: u64, from_me: u64) -> (r: Option<StoreAction>)
        ensures
            ({
                let s = old(self)@.inflight;
                let p = position_of(s, client_msg_id);
                if p < s.len() {
                    &&& final(self)@ == (OutboxModel {
                        inflight: s.remove(p as int),
                        ..old(self)@
                    })
                    &&& r is Some
                    &&& r->Some_0@ == (StoreActionModel::AckOutgoing {
                        client_msg_id,
                        msg_id,
                        from: from_me,
                        to: s[p as int].to,
                        content: s[p as int].content,
                    })
                } else {
                    final(self)@ == old(self)@ && r is None
                }
            }),
    {
        let ghost s = self@.inflight;
        let mut i: usize = 0;
        while i < self.inflight.len()
            invariant
                self@ == old(self)@,
                s == self@.inflight,
                i <= self.inflight@.len(),
                forall|k: int| 0 <= k < i ==> (#[trigger] s[k]).client_msg_id != client_msg_id,
            decreases self.inflight@.len() - i,
        {
            if self.inflight[i].client_msg_id == client_msg_id {
                proof {
                    lemma_position_of(s, client_msg_id);
                    let p = position_of(s, client_msg_id);
                    assert(s[i as int].client_msg_id == client_msg_id);
                    assert(p == i);
                }
                let m = self.inflight.remove(i);
                assert(self@.inflight =~= s.remove(i as int));
                return Some(
                    StoreAction::AckOutgoing {
                        client_msg_id,
                        msg_id,
                        from: from_me,
                        to: m.to,
                        content: m.content,
                    },
                );
            }
            assert(s[i as int].client_msg_id != client_msg_id);
            i = i + 1;
        }
        proof {
            lemma_position_of(s, client_msg_id);
        }
        None
    }

    /// A new connection: every waiting message is sent once, and its wait begins
    /// anew.
    pub fn resends(&mut self, now: Nanos) -> (r: Vec<Msg>)
        requires
            now + old(self)@.rto <= u128::MAX,
        ensures
            final(self)@.rto == old(self)@.rto,
            final(self)@.max_attempts == old(self)@.max_attempts,
            final(self)@.inflight == old(self)@.inflight.map_values(
                |m: InflightModel| InflightModel { deadline: (now + old(self)@.rto) as u128, ..m },
            ),
            msg_views(r@) == old(self)@.inflight.map_values(|m: InflightModel| outgoing(m)),
    {
        let ghost s = self@.inflight;
        let deadline: Nanos = now + self.retry_timeout;
        let mut out: Vec<Msg> = Vec::new();
        let mut i: usize = 0;
        while i < self.inflight.len()
            invariant
                i <= self.inflight@.len(),
                self.inflight@.len() == s.len(),
                self.retry_timeout == old(self)@.rto,
                self.retry_max_attempts == old(self)@.max_attempts,
                out@.len() == i,
                forall|k: int| 0 <= k < i ==> (#[trigger] out@[k])@ == outgoing(s[k]),
                forall|k: int|
                    0 <= k < s.len() ==> (#[trigger] self.inflight@[k])@ == if k < i {
                        InflightModel { deadline, ..s[k] }
                    } else {
                        s[k]
                    },
            decreases self.inflight@.len() - i,
        {
            let m = &self.inflight[i];
            out.push(m.to_msg());
            let again = Inflight {
                client_msg_id: m.client_msg_id,
                to: m.to,
                content: m.content.clone(),
                attempts: m.attempts,
                deadline,
            };
            self.inflight.set(i, again);
            i = i + 1;
        }
        assert(self@.inflight =~= s.map_values(
            |m: InflightModel| InflightModel { deadline: (now + old(self)@.rto) as u128, ..m },
        ));
        assert(msg_views(out@) =~= s.map_values(|m: InflightModel| outgoing(m)));
        out
    }

    /// The messages that are due at `now` are sent again or given up.
    pub fn due(&mut self, now: Nanos) -> (r: Due)
        requires
            now + RETRY_DELAY_CAP <= u128::MAX,
        ensures
            ({
                let d = due_model(
                    old(self)@.inflight,
                    now,
                    old(self)@.rto,
                    old(self)@.max_attempts,
                );
                &&& final(self)@ == (OutboxModel { inflight: d.kept, ..old(self)@ })
                &&& action_views(r.actions@) == d.actions
                &&& msg_views(r.resends@) == d.resends
                &&& r.failed@ == d.failed
            }),
    {
        let ghost s = self@.inflight;
        let ghost rto = self.retry_timeout;
        let ghost max = self.retry_max_attempts;
        let mut actions: Vec<StoreAction> = Vec::new();
        let mut resends: Vec<Msg> = Vec::new();
        let mut failed: Vec<u64> = Vec::new();
        let mut i: usize = 0;
        let ghost mut k: int = 0;
        assert(s.take(0) =~= Seq::<InflightModel>::empty());
        assert(action_views(actions@) =~= Seq::<StoreActionModel>::empty());
        assert(msg_views(resends@) =~= Seq::<MsgModel>::empty());
        while i < self.inflight.len()
            invariant
                0 <= k <= s.len(),
                self.retry_timeout == rto,
                self.retry_max_attempts == max,
                now + RETRY_DELAY_CAP <= u128::MAX,
                i == due_model(s.take(k), now, rto, max).kept.len(),
                self@.inflight =~= due_model(s.take(k), now, rto, max).kept + s.skip(k),
                action_views(actions@) =~= due_model(s.take(k), now, rto, max).actions,
                msg_views(resends@) =~= due_model(s.take(k), now, rto, max).resends,
                failed@ =~= due_model(s.take(k), now, rto, max).failed,
            decreases s.len() - k,
        {
            let ghost d = due_model(s.take(k), now, rto, max);
            let ghost e = due_model(s.take(k + 1), now, rto, max);
            let ghost before = self.inflight@;
            proof {
                assert(self@.inflight.len() == self.inflight@.len());
                assert(k < s.len());
                assert(s.take(k + 1).drop_last() =~= s.take(k));
                assert(s.take(k + 1).last() == s[k]);
                assert(self@.inflight[i as int] == s[k]);
                assert(self.inflight@[i as int]@ == s[k]);
            }
            if self.inflight[i].deadline > now {
                i = i + 1;
            } else if self.inflight[i].attempts >= self.retry_max_attempts {
                let m = self.inflight.remove(i);
                actions.push(StoreAction::DropOutgoing { client_msg_id: m.client_msg_id });
                failed.push(m.client_msg_id);
                proof {
                    let want = e.kept + s.skip(k + 1);
                    assert forall|j: int| 0 <= j < want.len() implies #[trigger] want[j]
                        == self@.inflight[j] by {
                        let was = if j < i {
                            j
                        } else {
                            j + 1
                        };
                        assert(self.inflight@[j] == before[was]);
                        assert(before[was]@ == (d.kept + s.skip(k))[was]);
                    }
                    assert(self@.inflight =~= want);
                    assert(action_views(actions@) =~= e.actions);
                }
            } else {
                let attempts: u32 = self.inflight[i].attempts + 1;
                let delay: Nanos = backoff_delay(self.retry_timeout, attempts);
                let m = &self.inflight[i];
                let again = Inflight {
                    client_msg_id: m.client_msg_id,
                    to: m.to,
                    content: m.content.clone(),
                    attempts,
                    deadline: now + delay,
                };
                actions.push(
                    StoreAction::SetAttempts { client_msg_id: again.client_msg_id, attempts },
                );
                resends.push(again.to_msg());
                self.inflight.set(i, again);
                i = i + 1;
                proof {
                    assert(again@ == sent_again(s[k], now, rto));
                    let want = e.kept + s.skip(k + 1);
                    assert forall|j: int| 0 <= j < want.len() implies #[trigger] want[j]
                        == self@.inflight[j] by {
                        if j != i - 1 {
                            assert(self.inflight@[j] == before[j]);
                            assert(before[j]@ == (d.kept + s.skip(k))[j]);
                        }
                    }
                    assert(self@.inflight =~= want);
                    assert(action_views(actions@) =~= e.actions);
                    assert(msg_views(resends@) =~= e.resends);
                }
            }
            proof {
                k = k + 1;
            }
        }
        proof {
            assert(s.skip(k).len() == 0);
            assert(s.take(k) =~= s);
            assert(self@.inflight =~= due_model(s, now, rto, max).kept);
        }
        Due { actions, resends, failed }
    }

    /// When the next message is due.
    #[must_use]
    pub fn next_deadline(&self) -> (r: Option<Nanos>)
        ensures
            r == earliest(self@.inflight),
    {
        let ghost s = self@.inflight;
        let mut best: Option<Nanos> = None;
        let mut i: usize = 0;
        assert(s.take(0) =~= Seq::<InflightModel>::empty());
        while i < self.inflight.len()
            invariant
                i <= self.inflight@.len(),
                s == self@.inflight,
                best == earliest(s.take(i as int)),
            decreases self.inflight@.len() - i,
        {
            let deadline: Nanos = self.inflight[i].deadline;
            proof {
                assert(s.take(i + 1).drop_last() =~= s.take(i as int));
                assert(s.take(i + 1).last() == s[i as int]);
            }
            best = match best {
                Some(t) => if t <= deadline {
                    Some(t)
                } else {
                    Some(deadline)
                },
                None => Some(deadline),
            };
            i = i + 1;
        }
        assert(s.take(i as int) =~= s);
        best
    }

    /// The first wait before a message is sent again.
    #[must_use]
    pub fn retry_timeout(&self) -> (r: Nanos)
        ensures
            r == self@.rto,
    {
        self.retry_timeout
    }

    /// How many messages wait.
    #[must_use]
    pub fn len(&self) -> (r: usize)
        ensures
            r == self@.inflight.len(),
    {
        self.inflight.len()
    }

    /// Whether no message waits.
    #[must_use]
    pub fn is_empty(&self) -> (r: bool)
        ensures
            r == (self@.inflight.len() == 0),
    {
        self.inflight.len() == 0
    }
}

} // verus!
