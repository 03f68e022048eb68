//! The client's decisions: what it sends when a connection is made, what it does
//! about each thing that happens while it lasts, and what it does when it ends.
//! Sockets, clocks and the message store are the caller's: a decision is a list
//! of effects, which the caller carries out in order.

use bytes::Bytes;
use vstd::prelude::*;
use vstd::utf8::encode_utf8;
use crate::client::dedup::{DEFAULT_CAPACITY, DedupWindow, accepted};
use crate::client::event::{ClientEvent, EventModel};
use crate::client::message::{Msg, MsgAck, MsgModel, SyncResp};
use crate::client::outbox::{
    Due, InflightModel, Nanos, Outbox, OutboxModel, Pending, RETRY_DELAY_CAP, StoreAction,
    StoreActionModel, action_views, due_model, earliest, law_due_loses_nothing,
    lemma_position_of, msg_views, outgoing, position_of,
};
use crate::octets::bytes_content;
use crate::protocol::error::ProtocolError;
use crate::protocol::frame::{Cmd, Frame, FrameModel};
use crate::protocol::payload::{
    Handshake, HandshakeAck, HandshakeModel, Payload, SyncReq,
};

verus! {

/// The default time between heartbeats: fifteen seconds.
pub const DEFAULT_HEARTBEAT_INTERVAL: Nanos = 15_000_000_000;

/// The default first wait before connecting again: one second.
pub const DEFAULT_BACKOFF_BASE: Nanos = 1_000_000_000;

/// The default longest wait before connecting again: thirty seconds.
pub const DEFAULT_BACKOFF_MAX: Nanos = 30_000_000_000;

/// The default wait for the answer to a login: five seconds.
pub const DEFAULT_HANDSHAKE_TIMEOUT: Nanos = 5_000_000_000;

/// The default first wait before a message is sent again: three seconds.
pub const DEFAULT_RETRY_TIMEOUT: Nanos = 3_000_000_000;

/// How often a message is sent by default.
pub const DEFAULT_RETRY_MAX_ATTEMPTS: u32 = 8;

/// How a client is set up.
#[derive(Clone, Debug)]
pub struct ClientConfig {
    /// The server's address.
    pub server_addr: String,
    /// Who logs in.
    pub user_id: u64,
    /// The credential.
    pub token: String,
    /// The time between heartbeats.
    pub heartbeat_interval: Nanos,
    /// The first wait before connecting again.
    pub backoff_base: Nanos,
    /// The longest wait before connecting again.
    pub backoff_max: Nanos,
    /// The wait for the answer to a login.
    pub handshake_timeout: Nanos,
    /// The directory of the message store; without one the messages last no
    /// longer than the process.
    pub data_dir: Option<String>,
    /// The first wait before a message is sent again.
    pub retry_timeout: Nanos,
    /// How often a message is sent at most.
    pub retry_max_attempts: u32,
}

impl ClientConfig {
    /// The times and the number of attempts are the defaults.
    pub open spec fn defaults(&self) -> bool {
        &&& self.heartbeat_interval == DEFAULT_HEARTBEAT_INTERVAL
        &&& self.backoff_base == DEFAULT_BACKOFF_BASE
        &&& self.backoff_max == DEFAULT_BACKOFF_MAX
        &&& self.handshake_timeout == DEFAULT_HANDSHAKE_TIMEOUT
        &&& self.retry_timeout == DEFAULT_RETRY_TIMEOUT
        &&& self.retry_max_attempts == DEFAULT_RETRY_MAX_ATTEMPTS
    }

    /// A client of this server and user, with the defaults.
    #[must_use]
    pub fn new(server_addr: &str, user_id: u64, token: &str) -> (r: Self)
        ensures
            r.server_addr@ == server_addr@,
            r.user_id == user_id,
            r.token@ == token@,
            r.data_dir is None,
            r.defaults(),
    {
        ClientConfig {
            server_addr: server_addr.to_owned(),
            user_id,
            token: token.to_owned(),
            heartbeat_interval: DEFAULT_HEARTBEAT_INTERVAL,
            backoff_base: DEFAULT_BACKOFF_BASE,
            backoff_max: DEFAULT_BACKOFF_MAX,
            handshake_timeout: DEFAULT_HANDSHAKE_TIMEOUT,
            data_dir: None,
            retry_timeout: DEFAULT_RETRY_TIMEOUT,
            retry_max_attempts: DEFAULT_RETRY_MAX_ATTEMPTS,
        }
    }
}

/// Why the client does not take a command.
#[derive(Debug, Clone, Copy, PartialEq, Eq, Structural)]
pub enum ClientError {
    /// The client has stopped.
    Stopped,
}

impl ClientError {
    /// The error as a message.
    #[must_use]
    pub fn to_text(&self) -> (s: String)
        ensures
            s@ == "client stopped: command channel closed"@,
    {
        "client stopped: command channel closed".to_owned()
    }
}

/// How a connection ended.
#[derive(Debug, Clone, PartialEq, Eq)]
pub enum Outcome {
    /// By a fault: another is made.
    Disconnected,
    /// The login was refused, for this reason: none is made.
    Rejected(String),
    /// The client stops.
    Stopped,
}

/// What an [`Outcome`] says.
pub enum OutcomeModel {
    Disconnected,
    Rejected(Seq<char>),
    Stopped,
}

impl View for Outcome {
    type V = OutcomeModel;

    open spec fn view(&self) -> OutcomeModel {
        match *self {
            Outcome::Disconnected => OutcomeModel::Disconnected,
            Outcome::Rejected(reason) => OutcomeModel::Rejected(reason@),
            Outcome::Stopped => OutcomeModel::Stopped,
        }
    }
}

/// What an optional outcome says.
pub open spec fn outcome_view(o: Option<Outcome>) -> Option<OutcomeModel> {
    match o {
        Some(outcome) => Some(outcome@),
        None => None,
    }
}

/// Something for the caller to do.
#[derive(Debug)]
pub enum Effect {
    /// Change the message store.
    Store(StoreAction),
    /// Tell the user.
    Emit(ClientEvent),
    /// Send a frame.
    Send(Frame),
}

/// What an [`Effect`] says.
pub enum EffectModel {
    Store(StoreActionModel),
    Emit(EventModel),
    Send(FrameModel),
}

impl View for Effect {
    type V = EffectModel;

    open spec fn view(&self) -> EffectModel {
        match *self {
            Effect::Store(action) => EffectModel::Store(action@),
            Effect::Emit(event) => EffectModel::Emit(event@),
            Effect::Send(frame) => EffectModel::Send(frame@),
        }
    }
}

/// What the effects of a vector say.
pub open spec fn effect_views(v: Seq<Effect>) -> Seq<EffectModel> {
    v.map_values(|e: Effect| e@)
}

/// How the connection ends when an effect cannot be carried out: without a
/// message store or a user the client has no purpose; without a connection it
/// makes another.
#[must_use]
pub fn failure(effect: &Effect) -> (r: Outcome)
    ensures
        r@ == (match effect@ {
            EffectModel::Store(_) => OutcomeModel::Stopped,
            EffectModel::Emit(_) => OutcomeModel::Stopped,
            EffectModel::Send(_) => OutcomeModel::Disconnected,
        }),
{
    match effect {
        Effect::Store(_) => Outcome::Stopped,
        Effect::Emit(_) => Outcome::Stopped,
        Effect::Send(_) => Outcome::Disconnected,
    }
}

/// What the client does after a connection ended: what it tells the user, and
/// whether it makes another.
pub fn client_loop_step(outcome: Outcome) -> (r: (Option<ClientEvent>, bool))
    ensures
        match outcome@ {
            OutcomeModel::Rejected(reason) => r.0 is Some && r.0->Some_0@ == (EventModel::Rejected {
                reason,
            }) && !r.1,
            OutcomeModel::Stopped => r.0 is None && !r.1,
            OutcomeModel::Disconnected => r.0 is Some && r.0->Some_0@ == EventModel::Disconnected
                && r.1,
        },
{
    match outcome {
        Outcome::Rejected(reason) => (Some(ClientEvent::Rejected { reason }), false),
        Outcome::Stopped => (None, false),
        Outcome::Disconnected => (Some(ClientEvent::Disconnected), true),
    }
}

// ---------------------------------------------------------------------------
// What the client keeps
// ---------------------------------------------------------------------------

/// What the client keeps from connection to connection.
pub struct LocalState {
    outbox: Outbox,
    dedup: DedupWindow,
    cursor: u64,
}

/// What a [`LocalState`] holds.
#[verifier::ext_equal]
pub struct LocalModel {
    /// The messages that wait for their confirmation.
    pub outbox: OutboxModel,
    /// The messages that arrived last.
    pub window: Seq<(u64, u64)>,
    /// How many of them are known.
    pub limit: nat,
    /// The largest number of a message that arrived.
    pub cursor: u64,
}

impl View for LocalState {
    type V = LocalModel;

    closed spec fn view(&self) -> LocalModel {
        LocalModel {
            outbox: self.outbox@,
            window: self.dedup.window(),
            limit: self.dedup.limit(),
            cursor: self.cursor,
        }
    }
}

/// What taking in messages does.
#[verifier::ext_equal]
pub struct IngestModel {
    /// What the client keeps then.
    pub local: LocalModel,
    /// What the message store is told.
    pub actions: Seq<StoreActionModel>,
    /// The messages that are new.
    pub fresh: Seq<MsgModel>,
}

/// Taking in one message: one that is known is dropped; a new one is stored, and
/// the cursor moves up to its number.
pub open spec fn ingest_model(local: LocalModel, msg: MsgModel) -> IngestModel {
    let key = (msg.from, msg.client_msg_id);
    if local.window.contains(key) {
        IngestModel { local, actions: Seq::empty(), fresh: Seq::empty() }
    } else {
        let window = accepted(local.window, local.limit, key);
        if msg.msg_id > local.cursor {
            IngestModel {
                local: LocalModel { window, cursor: msg.msg_id, ..local },
                actions: seq![
                    StoreActionModel::AppendIncoming(msg),
                    StoreActionModel::SetSyncCursor(msg.msg_id),
                ],
                fresh: seq![msg],
            }
        } else {
            IngestModel {
                local: LocalModel { window, ..local },
                actions: seq![StoreActionModel::AppendIncoming(msg)],
                fresh: seq![msg],
            }
        }
    }
}

/// Taking in messages one after the other.
pub open spec fn ingest_batch_model(local: LocalModel, batch: Seq<MsgModel>) -> IngestModel
    decreases batch.len(),
{
    if batch.len() == 0 {
        IngestModel { local, actions: Seq::empty(), fresh: Seq::empty() }
    } else {
        let a = ingest_batch_model(local, batch.drop_last());
        let b = ingest_model(a.local, batch.last());
        IngestModel {
            local: b.local,
            actions: a.actions + b.actions,
            fresh: a.fresh + b.fresh,
        }
    }
}

/// What a client keeps that finds these messages waiting in its message store, and this
/// cursor.
pub open spec fn found(
    pending: Seq<Pending>,
    cursor: u64,
    rto: Nanos,
    max_attempts: u32,
    now: Nanos,
) -> LocalModel {
    LocalModel {
        outbox: OutboxModel {
            inflight: pending.map_values(
                |p: Pending|
                    InflightModel {
                        client_msg_id: p.client_msg_id,
                        to: p.to,
                        content: bytes_content(p.content),
                        attempts: p.attempts,
                        deadline: now,
                    },
            ),
            rto,
            max_attempts,
        },
        window: Seq::empty(),
        limit: DEFAULT_CAPACITY as nat,
        cursor,
    }
}

impl LocalState {
    /// The window of known messages is in order.
    pub closed spec fn wf(&self) -> bool {
        self.dedup.wf()
    }

    /// What the message store kept: the messages that wait for their
    /// confirmation, and the cursor. The window of known messages is empty.
    #[must_use]
    pub fn open(
        pending: &Vec<Pending>,
        cursor: u64,
        retry_timeout: Nanos,
        retry_max_attempts: u32,
        now: Nanos,
    ) -> (r: Self)
        ensures
            r.wf(),
            r@.cursor == cursor,
            r@.window == Seq::<(u64, u64)>::empty(),
            r@.limit == DEFAULT_CAPACITY,
            r@.outbox.rto == retry_timeout,
            r@.outbox.max_attempts == retry_max_attempts,
            r@.outbox.inflight.len() == pending@.len(),
            forall|i: int|
                0 <= i < pending@.len() ==> #[trigger] r@.outbox.inflight[i] == (InflightModel {
                    client_msg_id: pending@[i].client_msg_id,
                    to: pending@[i].to,
                    content: bytes_content(pending@[i].content),
                    attempts: pending@[i].attempts,
                    deadline: now,
                }),
            r@ == found(pending@, cursor, retry_timeout, retry_max_attempts, now),
    {
        let r = LocalState {
            outbox: Outbox::load(pending, retry_timeout, retry_max_attempts, now),
            dedup: DedupWindow::new(DEFAULT_CAPACITY),
            cursor,
        };
        assert(r@.outbox.inflight =~= found(
            pending@,
            cursor,
            retry_timeout,
            retry_max_attempts,
            now,
        ).outbox.inflight);
        r
    }

    /// When the next message is due.
    #[must_use]
    pub fn next_deadline(&self) -> (r: Option<Nanos>)
        ensures
            r == earliest(self@.outbox.inflight),
    {
        self.outbox.next_deadline()
    }

    /// Takes in a message that arrived: the message, if it is new. What the
    /// message store is told goes to the end of `actions`.
    pub fn ingest(&mut self, msg: Msg, actions: &mut Vec<StoreAction>) -> (r: Option<Msg>)
        requires
            old(self).wf(),
        ensures
            final(self).wf(),
            ({
                let m = ingest_model(old(self)@, msg@);
                &&& final(self)@ == m.local
                &&& action_views(final(actions)@) == action_views(old(actions)@) + m.actions
                &&& m.fresh == match r {
                    Some(fresh) => seq![fresh@],
                    None => Seq::empty(),
                }
            }),
    {
        if !self.dedup.accept((msg.from, msg.client_msg_id)) {
            assert(action_views(actions@) =~= action_views(old(actions)@)
                + Seq::<StoreActionModel>::empty());
            return None;
        }
        actions.push(StoreAction::AppendIncoming(msg.clone()));
        if msg.msg_id > self.cursor {
            self.cursor = msg.msg_id;
            actions.push(StoreAction::SetSyncCursor(self.cursor));
        }
        assert(action_views(actions@) =~= action_views(old(actions)@) + ingest_model(
            old(self)@,
            msg@,
        ).actions);
        Some(msg)
    }

    /// Takes in messages that arrived: those that are new. What the message store
    /// is told goes to the end of `actions`.
    pub fn ingest_batch(&mut self, batch: &Vec<Msg>, actions: &mut Vec<StoreAction>) -> (r: Vec<
        Msg,
    >)
        requires
            old(self).wf(),
        ensures
            final(self).wf(),
            ({
                let m = ingest_batch_model(old(self)@, msg_views(batch@));
                &&& final(self)@ == m.local
                &&& action_views(final(actions)@) == action_views(old(actions)@) + m.actions
                &&& msg_views(r@) == m.fresh
            }),
    {
        let ghost all = msg_views(batch@);
        let ghost local = self@;
        let ghost before = action_views(actions@);
        let mut fresh: Vec<Msg> = Vec::new();
        let mut i: usize = 0;
        assert(all.take(0) =~= Seq::<MsgModel>::empty());
        assert(msg_views(fresh@) =~= Seq::<MsgModel>::empty());
        assert(before + Seq::<StoreActionModel>::empty() =~= before);
        while i < batch.len()
            invariant
                i <= batch@.len(),
                all == msg_views(batch@),
                self.wf(),
                ({
                    let m = ingest_batch_model(local, all.take(i as int));
                    &&& self@ == m.local
                    &&& action_views(actions@) =~= before + m.actions
                    &&& msg_views(fresh@) =~= m.fresh
                }),
            decreases batch@.len() - i,
        {
            proof {
                assert(all.take(i + 1).drop_last() =~= all.take(i as int));
                assert(all.take(i + 1).last() == batch@[i as int]@);
            }
            let ghost had = msg_views(fresh@);
            if let Some(msg) = self.ingest(batch[i].clone(), actions) {
                fresh.push(msg);
                assert(msg_views(fresh@) =~= had + seq![msg@]);
            }
            i = i + 1;
        }
        assert(all.take(i as int) =~= all);
        fresh
    }
}

// ---------------------------------------------------------------------------
// A connection
// ---------------------------------------------------------------------------

/// Something that happens while a connection lasts.
#[derive(Debug)]
pub enum Input {
    /// The client is to stop.
    Shutdown,
    /// The user sends a message, which the message store gave this number.
    Command {
        /// The sender's number.
        client_msg_id: u64,
        /// The recipient.
        to: u64,
        /// What it says.
        content: Bytes,
    },
    /// The user will send nothing more.
    CommandsClosed,
    /// A message is due.
    Timer,
    /// A frame arrived.
    Arrived(Frame),
    /// The connection is gone.
    FramesClosed,
}

/// What an [`Input`] says.
pub enum InputModel {
    Shutdown,
    Command { client_msg_id: u64, to: u64, content: Seq<u8> },
    CommandsClosed,
    Timer,
    Arrived(FrameModel),
    FramesClosed,
}

impl View for Input {
    type V = InputModel;

    open spec fn view(&self) -> InputModel {
        match *self {
            Input::Shutdown => InputModel::Shutdown,
            Input::Command { client_msg_id, to, content } => InputModel::Command {
                client_msg_id,
                to,
                content: bytes_content(content),
            },
            Input::CommandsClosed => InputModel::CommandsClosed,
            Input::Timer => InputModel::Timer,
            Input::Arrived(frame) => InputModel::Arrived(frame@),
            Input::FramesClosed => InputModel::FramesClosed,
        }
    }
}

/// What is to be done: the effects, in this order, and then, if there is one, the
/// end of the connection.
#[derive(Debug)]
pub struct Step {
    /// What is to be done.
    pub effects: Vec<Effect>,
    /// How the connection ends.
    pub outcome: Option<Outcome>,
}

/// The client while a connection lasts.
pub struct Session {
    local: LocalState,
    send_seq: u64,
    self_id: u64,
}

/// What a [`Session`] holds.
#[verifier::ext_equal]
pub struct SessionModel {
    /// What the client keeps.
    pub local: LocalModel,
    /// The number of the last frame that was sent.
    pub send_seq: u64,
    /// The user.
    pub self_id: u64,
}

impl View for Session {
    type V = SessionModel;

    closed spec fn view(&self) -> SessionModel {
        SessionModel { local: self.local@, send_seq: self.send_seq, self_id: self.self_id }
    }
}

/// What happens in a step.
#[verifier::ext_equal]
pub struct StepModel {
    /// The client after it.
    pub session: SessionModel,
    /// What is to be done.
    pub effects: Seq<EffectModel>,
    /// How the connection ends.
    pub outcome: Option<OutcomeModel>,
}

/// A frame of the client's around a body.
pub open spec fn frame_around<P: Payload>(v: P::V, seq: u64) -> FrameModel {
    FrameModel { cmd: P::command(), flags: 0, seq, ack: 0, payload: P::wire(v) }
}

/// The frames of messages, numbered on from `seq`.
pub open spec fn frames_of(msgs: Seq<MsgModel>, seq: u64) -> Seq<EffectModel> {
    Seq::new(
        msgs.len(),
        |i: int| EffectModel::Send(frame_around::<Msg>(msgs[i], (seq + 1 + i) as u64)),
    )
}

/// The actions as effects.
pub open spec fn stored(actions: Seq<StoreActionModel>) -> Seq<EffectModel> {
    actions.map_values(|a: StoreActionModel| EffectModel::Store(a))
}

/// The messages that were given up, as effects.
pub open spec fn given_up(failed: Seq<u64>) -> Seq<EffectModel> {
    failed.map_values(
        |id: u64| EffectModel::Emit(EventModel::SendFailed { client_msg_id: id }),
    )
}

/// Nothing is to be done.
pub open spec fn idle(s: SessionModel) -> StepModel {
    StepModel { session: s, effects: Seq::empty(), outcome: None }
}

/// The connection ends.
pub open spec fn ended(s: SessionModel, outcome: OutcomeModel) -> StepModel {
    StepModel { session: s, effects: Seq::empty(), outcome: Some(outcome) }
}

/// What is done when a connection is made: the login is sent, with which the numbers of
/// the frames begin.
pub open spec fn login_step(s: SessionModel, token: Seq<char>) -> (SessionModel, FrameModel) {
    (
        SessionModel { send_seq: 1, ..s },
        frame_around::<Handshake>(HandshakeModel { user_id: s.self_id, token }, 1),
    )
}

/// What is done about the answer to the login: without one, or with one that
/// cannot be read, the connection ends; a refusal ends it for good; otherwise the
/// user is told, and the messages behind the cursor are asked for.
pub open spec fn reply_step(s: SessionModel, reply: Option<FrameModel>) -> StepModel {
    match reply {
        None => ended(s, OutcomeModel::Disconnected),
        Some(frame) => if frame.cmd != Cmd::HandshakeAck {
            ended(s, OutcomeModel::Disconnected)
        } else {
            match HandshakeAck::parse(frame.payload) {
                Err(_) => ended(s, OutcomeModel::Disconnected),
                Ok(ack) => if ack.session_id == 0 {
                    ended(s, OutcomeModel::Rejected(ack.reason))
                } else {
                    StepModel {
                        session: SessionModel { send_seq: (s.send_seq + 1) as u64, ..s },
                        effects: seq![
                            EffectModel::Emit(
                                EventModel::Connected { session_id: ack.session_id },
                            ),
                            EffectModel::Send(
                                frame_around::<SyncReq>(s.local.cursor, (s.send_seq + 1) as u64),
                            ),
                        ],
                        outcome: None,
                    }
                },
            }
        },
    }
}

/// What is done about a frame.
pub open spec fn frame_step(s: SessionModel, frame: FrameModel) -> StepModel {
    match frame.cmd {
        Cmd::Msg => match Msg::parse(frame.payload) {
            Err(_) => idle(s),
            Ok(msg) => {
                let m = ingest_model(s.local, msg);
                StepModel {
                    session: SessionModel { local: m.local, ..s },
                    effects: if m.fresh.len() == 0 {
                        Seq::empty()
                    } else {
                        stored(m.actions).push(EffectModel::Emit(EventModel::Message(msg)))
                    },
                    outcome: None,
                }
            },
        },
        Cmd::MsgAck => match MsgAck::parse(frame.payload) {
            Err(_) => idle(s),
            Ok(ack) => {
                let waiting = s.local.outbox.inflight;
                let p = position_of(waiting, ack.client_msg_id);
                let told = EffectModel::Emit(
                    EventModel::Ack { msg_id: ack.msg_id, client_msg_id: ack.client_msg_id },
                );
                if p < waiting.len() {
                    StepModel {
                        session: SessionModel {
                            local: LocalModel {
                                outbox: OutboxModel {
                                    inflight: waiting.remove(p as int),
                                    ..s.local.outbox
                                },
                                ..s.local
                            },
                            ..s
                        },
                        effects: seq![
                            EffectModel::Store(
                                StoreActionModel::AckOutgoing {
                                    client_msg_id: ack.client_msg_id,
                                    msg_id: ack.msg_id,
                                    from: s.self_id,
                                    to: waiting[p as int].to,
                                    content: waiting[p as int].content,
                                },
                            ),
                            told,
                        ],
                        outcome: None,
                    }
                } else {
                    StepModel { session: s, effects: seq![told], outcome: None }
                }
            },
        },
        Cmd::SyncResp => match SyncResp::parse(frame.payload) {
            Err(_) => idle(s),
            Ok(batch) => {
                let m = ingest_batch_model(s.local, batch);
                StepModel {
                    session: SessionModel { local: m.local, ..s },
                    effects: if m.fresh.len() == 0 {
                        Seq::empty()
                    } else {
                        stored(m.actions).push(EffectModel::Emit(EventModel::SyncBatch(m.fresh)))
                    },
                    outcome: None,
                }
            },
        },
        _ => idle(s),
    }
}

/// What is done when messages are due: the message store is told, the user is
/// told of those that are given up, and the others are sent again.
pub open spec fn timer_step(s: SessionModel, now: Nanos) -> StepModel {
    let o = s.local.outbox;
    let d = due_model(o.inflight, now, o.rto, o.max_attempts);
    StepModel {
        session: SessionModel {
            local: LocalModel { outbox: OutboxModel { inflight: d.kept, ..o }, ..s.local },
            send_seq: (s.send_seq + d.resends.len()) as u64,
            ..s
        },
        effects: stored(d.actions) + given_up(d.failed) + frames_of(d.resends, s.send_seq),
        outcome: None,
    }
}

/// What is done about a message of the user's: it waits for its confirmation, the
/// user is told, and it is sent.
pub open spec fn command_step(
    s: SessionModel,
    client_msg_id: u64,
    to: u64,
    content: Seq<u8>,
    now: Nanos,
) -> StepModel {
    let o = s.local.outbox;
    let m = InflightModel {
        client_msg_id,
        to,
        content,
        attempts: 1,
        deadline: (now + o.rto) as u128,
    };
    let seq = (s.send_seq + 1) as u64;
    StepModel {
        session: SessionModel {
            local: LocalModel {
                outbox: OutboxModel { inflight: o.inflight.push(m), ..o },
                ..s.local
            },
            send_seq: seq,
            ..s
        },
        effects: seq![
            EffectModel::Emit(EventModel::MessageQueued { client_msg_id, to, content }),
            EffectModel::Send(frame_around::<Msg>(outgoing(m), seq)),
        ],
        outcome: None,
    }
}

/// What is done when a login was accepted: every message that waits is sent, and its
/// wait begins anew.
pub open spec fn start_step(s: SessionModel, now: Nanos) -> StepModel {
    let o = s.local.outbox;
    StepModel {
        session: SessionModel {
            local: LocalModel {
                outbox: OutboxModel {
                    inflight: o.inflight.map_values(
                        |m: InflightModel|
                            InflightModel { deadline: (now + o.rto) as u128, ..m },
                    ),
                    ..o
                },
                ..s.local
            },
            send_seq: (s.send_seq + o.inflight.len()) as u64,
            ..s
        },
        effects: frames_of(o.inflight.map_values(|m: InflightModel| outgoing(m)), s.send_seq),
        outcome: None,
    }
}

/// What is done about something that happens.
pub open spec fn step_model(s: SessionModel, input: InputModel, now: Nanos) -> StepModel {
    match input {
        InputModel::Shutdown => ended(s, OutcomeModel::Stopped),
        InputModel::CommandsClosed => ended(s, OutcomeModel::Stopped),
        InputModel::FramesClosed => ended(s, OutcomeModel::Disconnected),
        InputModel::Command { client_msg_id, to, content } => command_step(
            s,
            client_msg_id,
            to,
            content,
            now,
        ),
        InputModel::Timer => timer_step(s, now),
        InputModel::Arrived(frame) => frame_step(s, frame),
    }
}

/// The clock and the frame numbers leave room for what may be sent at `now`.
pub open spec fn in_range(s: SessionModel, now: Nanos) -> bool {
    &&& now + s.local.outbox.rto <= u128::MAX
    &&& now + RETRY_DELAY_CAP <= u128::MAX
    &&& s.send_seq + s.local.outbox.inflight.len() + 1 <= u64::MAX
}

// ---------------------------------------------------------------------------
// Laws
// ---------------------------------------------------------------------------

/// A message that is known is dropped without a word.
pub proof fn law_duplicate_is_silent(s: SessionModel, frame: FrameModel, msg: MsgModel)
    requires
        frame.cmd == Cmd::Msg,
        Msg::parse(frame.payload) == Ok::<MsgModel, ProtocolError>(msg),
        s.local.window.contains((msg.from, msg.client_msg_id)),
    ensures
        frame_step(s, frame) == idle(s),
{
}

proof fn lemma_ingest_batch(local: LocalModel, batch: Seq<MsgModel>)
    ensures
        ({
            let m = ingest_batch_model(local, batch);
            &&& m.local.cursor >= local.cursor
            &&& m.local.outbox == local.outbox
            &&& forall|k: int|
                0 <= k < m.fresh.len() ==> m.actions.contains(
                    StoreActionModel::AppendIncoming(#[trigger] m.fresh[k]),
                )
        }),
    decreases batch.len(),
{
    if batch.len() > 0 {
        let a = ingest_batch_model(local, batch.drop_last());
        let b = ingest_model(a.local, batch.last());
        let m = ingest_batch_model(local, batch);
        lemma_ingest_batch(local, batch.drop_last());
        assert forall|k: int| 0 <= k < m.fresh.len() implies m.actions.contains(
            StoreActionModel::AppendIncoming(#[trigger] m.fresh[k]),
        ) by {
            let want = StoreActionModel::AppendIncoming(m.fresh[k]);
            if k < a.fresh.len() {
                assert(a.fresh[k] == m.fresh[k]);
                let i = choose|i: int| 0 <= i < a.actions.len() && a.actions[i] == want;
                assert(m.actions[i] == want);
            } else {
                assert(m.actions[a.actions.len() as int] == b.actions[0]);
            }
        }
    }
}

proof fn lemma_resends_len(s: Seq<InflightModel>, now: Nanos, rto: Nanos, max: u32)
    ensures
        due_model(s, now, rto, max).resends.len() <= s.len(),
    decreases s.len(),
{
    if s.len() > 0 {
        lemma_resends_len(s.drop_last(), now, rto, max);
    }
}

/// The cursor never goes back.
pub proof fn law_cursor_never_goes_back(s: SessionModel, input: InputModel, now: Nanos)
    ensures
        step_model(s, input, now).session.local.cursor >= s.local.cursor,
{
    if let InputModel::Arrived(frame) = input {
        if frame.cmd == Cmd::SyncResp {
            if let Ok(batch) = SyncResp::parse(frame.payload) {
                lemma_ingest_batch(s.local, batch);
            }
        }
    }
}

/// The message is stored by an effect in front of place `j`.
pub open spec fn stored_before(effects: Seq<EffectModel>, j: int, msg: MsgModel) -> bool {
    exists|i: int|
        0 <= i < j && #[trigger] effects[i] == EffectModel::Store(
            StoreActionModel::AppendIncoming(msg),
        )
}

/// What the user is told at place `j` is stored in front of it.
pub open spec fn stored_then_told(effects: Seq<EffectModel>, j: int) -> bool {
    match effects[j] {
        EffectModel::Emit(EventModel::Message(msg)) => stored_before(effects, j, msg),
        EffectModel::Emit(EventModel::SyncBatch(batch)) => forall|k: int|
            0 <= k < batch.len() ==> stored_before(effects, j, #[trigger] batch[k]),
        _ => true,
    }
}

proof fn lemma_message_stored(local: LocalModel, msg: MsgModel, j: int)
    requires
        ingest_model(local, msg).fresh.len() > 0,
        0 <= j <= ingest_model(local, msg).actions.len(),
    ensures
        stored_then_told(
            stored(ingest_model(local, msg).actions).push(
                EffectModel::Emit(EventModel::Message(msg)),
            ),
            j,
        ),
{
    let actions = ingest_model(local, msg).actions;
    let effects = stored(actions).push(EffectModel::Emit(EventModel::Message(msg)));
    assert(actions[0] == StoreActionModel::AppendIncoming(msg));
    assert(effects[0] == EffectModel::Store(actions[0]));
    if j < actions.len() {
        assert(effects[j] == EffectModel::Store(actions[j]));
    }
}

proof fn lemma_batch_stored(local: LocalModel, batch: Seq<MsgModel>, j: int)
    requires
        0 <= j <= ingest_batch_model(local, batch).actions.len(),
    ensures
        ({
            let m = ingest_batch_model(local, batch);
            stored_then_told(
                stored(m.actions).push(EffectModel::Emit(EventModel::SyncBatch(m.fresh))),
                j,
            )
        }),
{
    let m = ingest_batch_model(local, batch);
    let effects = stored(m.actions).push(EffectModel::Emit(EventModel::SyncBatch(m.fresh)));
    lemma_ingest_batch(local, batch);
    if j < m.actions.len() {
        assert(effects[j] == EffectModel::Store(m.actions[j]));
    } else {
        assert(effects[j] == EffectModel::Emit(EventModel::SyncBatch(m.fresh)));
        assert forall|k: int| 0 <= k < m.fresh.len() implies stored_before(
            effects,
            j,
            #[trigger] m.fresh[k],
        ) by {
            let want = StoreActionModel::AppendIncoming(m.fresh[k]);
            assert(m.actions.contains(want));
            let i = choose|i: int| 0 <= i < m.actions.len() && m.actions[i] == want;
            assert(effects[i] == EffectModel::Store(want));
        }
    }
}

proof fn lemma_timer_stored(s: SessionModel, now: Nanos, j: int)
    requires
        0 <= j < timer_step(s, now).effects.len(),
    ensures
        stored_then_told(timer_step(s, now).effects, j),
{
    let o = s.local.outbox;
    let d = due_model(o.inflight, now, o.rto, o.max_attempts);
    let a = stored(d.actions);
    let b = given_up(d.failed);
    let c = frames_of(d.resends, s.send_seq);
    let effects = timer_step(s, now).effects;
    if j < a.len() {
        assert(effects[j] == a[j]);
    } else if j < a.len() + b.len() {
        assert(effects[j] == b[j - a.len()]);
    } else {
        assert(effects[j] == c[j - a.len() - b.len()]);
    }
}

proof fn lemma_frame_stored(s: SessionModel, frame: FrameModel, j: int)
    requires
        0 <= j < frame_step(s, frame).effects.len(),
    ensures
        stored_then_told(frame_step(s, frame).effects, j),
{
    match frame.cmd {
        Cmd::Msg => {
            if let Ok(msg) = Msg::parse(frame.payload) {
                lemma_message_stored(s.local, msg, j);
            }
        },
        Cmd::SyncResp => {
            if let Ok(batch) = SyncResp::parse(frame.payload) {
                lemma_batch_stored(s.local, batch, j);
            }
        },
        _ => {},
    }
}

/// A message is stored before the user is told of it.
pub proof fn law_stored_before_told(s: SessionModel, input: InputModel, now: Nanos, j: int)
    requires
        0 <= j < step_model(s, input, now).effects.len(),
    ensures
        stored_then_told(step_model(s, input, now).effects, j),
{
    match input {
        InputModel::Arrived(frame) => {
            lemma_frame_stored(s, frame, j);
        },
        InputModel::Timer => {
            lemma_timer_stored(s, now, j);
        },
        _ => {},
    }
}

/// The frames among the effects carry rising numbers behind `from`, up to `upto`.
pub open spec fn numbered(effects: Seq<EffectModel>, from: u64, upto: u64) -> bool {
    &&& forall|i: int|
        #![trigger effects[i]]
        0 <= i < effects.len() ==> match effects[i] {
            EffectModel::Send(frame) => from < frame.seq <= upto,
            _ => true,
        }
    &&& forall|i: int, j: int|
        #![trigger effects[i], effects[j]]
        0 <= i < j < effects.len() ==> match (effects[i], effects[j]) {
            (EffectModel::Send(a), EffectModel::Send(b)) => a.seq < b.seq,
            _ => true,
        }
}

proof fn lemma_silent_is_numbered(effects: Seq<EffectModel>, from: u64)
    requires
        forall|i: int| 0 <= i < effects.len() ==> !(#[trigger] effects[i] is Send),
    ensures
        numbered(effects, from, from),
{
}

proof fn lemma_stored_is_silent(actions: Seq<StoreActionModel>, event: EventModel)
    ensures
        forall|i: int|
            0 <= i < stored(actions).push(EffectModel::Emit(event)).len() ==> !(
            #[trigger] stored(actions).push(EffectModel::Emit(event))[i] is Send),
{
    let all = stored(actions).push(EffectModel::Emit(event));
    assert forall|i: int| 0 <= i < all.len() implies !(#[trigger] all[i] is Send) by {
        if i < actions.len() {
            assert(all[i] == EffectModel::Store(actions[i]));
        }
    }
}

proof fn lemma_timer_is_numbered(s: SessionModel, now: Nanos)
    requires
        in_range(s, now),
    ensures
        numbered(timer_step(s, now).effects, s.send_seq, timer_step(s, now).session.send_seq),
{
    let o = s.local.outbox;
    let d = due_model(o.inflight, now, o.rto, o.max_attempts);
    lemma_resends_len(o.inflight, now, o.rto, o.max_attempts);
    let a = stored(d.actions);
    let b = given_up(d.failed);
    let f = frames_of(d.resends, s.send_seq);
    let n = a.len() + b.len();
    let effects = timer_step(s, now).effects;
    assert(effects == a + b + f);
    assert forall|i: int| 0 <= i < effects.len() implies match #[trigger] effects[i] {
        EffectModel::Send(frame) => i >= n && frame.seq == s.send_seq + 1 + (i - n),
        _ => i < n,
    } by {
        if i < a.len() {
            assert(effects[i] == EffectModel::Store(d.actions[i]));
        } else if i < n {
            assert(effects[i] == b[i - a.len()]);
        } else {
            assert(effects[i] == f[i - n]);
        }
    }
}

proof fn lemma_frame_is_silent(s: SessionModel, frame: FrameModel)
    ensures
        frame_step(s, frame).session.send_seq == s.send_seq,
        forall|i: int|
            0 <= i < frame_step(s, frame).effects.len() ==> !(#[trigger] frame_step(
                s,
                frame,
            ).effects[i] is Send),
{
    match frame.cmd {
        Cmd::Msg => {
            if let Ok(msg) = Msg::parse(frame.payload) {
                lemma_stored_is_silent(
                    ingest_model(s.local, msg).actions,
                    EventModel::Message(msg),
                );
            }
        },
        Cmd::SyncResp => {
            if let Ok(batch) = SyncResp::parse(frame.payload) {
                let m = ingest_batch_model(s.local, batch);
                lemma_stored_is_silent(m.actions, EventModel::SyncBatch(m.fresh));
            }
        },
        _ => {},
    }
}

proof fn lemma_command_is_numbered(
    s: SessionModel,
    client_msg_id: u64,
    to: u64,
    content: Seq<u8>,
    now: Nanos,
)
    requires
        s.send_seq < u64::MAX,
    ensures
        ({
            let t = command_step(s, client_msg_id, to, content, now);
            numbered(t.effects, s.send_seq, t.session.send_seq)
        }),
{
    let t = command_step(s, client_msg_id, to, content, now);
    assert(t.effects.len() == 2);
    assert(t.effects[0] is Emit);
}

/// The frames of a step carry the numbers that follow the last one, in order.
#[verifier::spinoff_prover]
pub proof fn law_frames_are_numbered(s: SessionModel, input: InputModel, now: Nanos)
    requires
        in_range(s, now),
    ensures
        ({
            let t = step_model(s, input, now);
            numbered(t.effects, s.send_seq, t.session.send_seq)
        }),
{
    match input {
        InputModel::Timer => {
            lemma_timer_is_numbered(s, now);
        },
        InputModel::Arrived(frame) => {
            lemma_frame_is_silent(s, frame);
            lemma_silent_is_numbered(frame_step(s, frame).effects, s.send_seq);
        },
        InputModel::Command { client_msg_id, to, content } => {
            lemma_command_is_numbered(s, client_msg_id, to, content, now);
        },
        _ => {
            lemma_silent_is_numbered(step_model(s, input, now).effects, s.send_seq);
        },
    }
}

/// The message waits, with what it says.
pub open spec fn waits(s: SessionModel, m: InflightModel) -> bool {
    exists|j: int|
        0 <= j < s.local.outbox.inflight.len() && same_message(
            #[trigger] s.local.outbox.inflight[j],
            m,
        )
}

/// Two entries are the same message, however often it was sent.
pub open spec fn same_message(a: InflightModel, b: InflightModel) -> bool {
    a.client_msg_id == b.client_msg_id && a.to == b.to && a.content == b.content
}

/// A message that waits goes on waiting until it is confirmed or the user is told
/// that it is given up.
pub proof fn law_sent_until_settled(s: SessionModel, input: InputModel, now: Nanos, i: int)
    requires
        0 <= i < s.local.outbox.inflight.len(),
    ensures
        ({
            let t = step_model(s, input, now);
            let m = s.local.outbox.inflight[i];
            ||| waits(t.session, m)
            ||| exists|j: int|
                0 <= j < t.effects.len() && settles(#[trigger] t.effects[j], m.client_msg_id)
        }),
{
    let t = step_model(s, input, now);
    let waiting = s.local.outbox.inflight;
    let m = waiting[i];
    match input {
        InputModel::Timer => {
            let o = s.local.outbox;
            let d = due_model(o.inflight, now, o.rto, o.max_attempts);
            law_due_loses_nothing(o.inflight, now, o.rto, o.max_attempts, i);
            if d.failed.contains(m.client_msg_id) {
                let k = choose|k: int| 0 <= k < d.failed.len() && d.failed[k] == m.client_msg_id;
                let at = d.actions.len() + k;
                assert(t.effects[at] == given_up(d.failed)[k]);
                assert(settles(t.effects[at], m.client_msg_id));
            } else {
                let j = choose|j: int|
                    0 <= j < d.kept.len() && (#[trigger] d.kept[j]).client_msg_id
                        == m.client_msg_id && d.kept[j].to == m.to && d.kept[j].content
                        == m.content;
                assert(same_message(t.session.local.outbox.inflight[j], m));
            }
        },
        InputModel::Command { client_msg_id, to, content } => {
            assert(t.session.local.outbox.inflight[i] == m);
        },
        InputModel::Arrived(frame) => {
            if frame.cmd == Cmd::MsgAck {
                if let Ok(ack) = MsgAck::parse(frame.payload) {
                    lemma_position_of(waiting, ack.client_msg_id);
                    let p = position_of(waiting, ack.client_msg_id);
                    if p == i {
                        assert(settles(t.effects[0], m.client_msg_id));
                    } else if p < waiting.len() {
                        let j = if i < p {
                            i
                        } else {
                            i - 1
                        };
                        assert(t.session.local.outbox.inflight[j] == m);
                    } else {
                        assert(t.session.local.outbox.inflight[i] == m);
                    }
                } else {
                    assert(t.session.local.outbox.inflight[i] == m);
                }
            } else {
                if frame.cmd == Cmd::SyncResp {
                    if let Ok(batch) = SyncResp::parse(frame.payload) {
                        lemma_ingest_batch(s.local, batch);
                    }
                }
                assert(t.session.local.outbox.inflight[i] == m);
            }
        },
        _ => {
            assert(t.session.local.outbox.inflight[i] == m);
        },
    }
}

/// The effect says that the wait of the message ended.
pub open spec fn settles(effect: EffectModel, client_msg_id: u64) -> bool {
    match effect {
        EffectModel::Store(StoreActionModel::AckOutgoing { client_msg_id: id, .. }) => id
            == client_msg_id,
        EffectModel::Emit(EventModel::SendFailed { client_msg_id: id }) => id == client_msg_id,
        _ => false,
    }
}

/// A client that starts again finds what its message store kept: every message that
/// waited, as it was and as often as it was sent, due at once and in its order; and the
/// cursor, from which the next login asks. It takes no message for known.
pub proof fn law_restart_finds_what_was_kept(
    pending: Seq<Pending>,
    cursor: u64,
    rto: Nanos,
    max_attempts: u32,
    now: Nanos,
    i: int,
)
    ensures
        ({
            let l = found(pending, cursor, rto, max_attempts, now);
            &&& l.cursor == cursor
            &&& l.window.len() == 0
            &&& l.limit == 1024
            &&& l.outbox.rto == rto && l.outbox.max_attempts == max_attempts
            &&& l.outbox.inflight.len() == pending.len()
            &&& 0 <= i < pending.len() ==> {
                let m = l.outbox.inflight[i];
                &&& m.client_msg_id == pending[i].client_msg_id
                &&& m.to == pending[i].to
                &&& m.content == bytes_content(pending[i].content)
                &&& m.attempts == pending[i].attempts
                &&& m.deadline <= now
            }
        }),
{
}

/// A login names the user and carries the password, and is the first frame.
pub proof fn law_login_names_the_user(s: SessionModel, token: Seq<char>)
    requires
        encode_utf8(token).len() <= usize::MAX,
    ensures
        ({
            let (t, frame) = login_step(s, token);
            &&& frame.cmd == Cmd::Handshake
            &&& frame.seq == 1
            &&& t.send_seq == 1
            &&& t.local == s.local && t.self_id == s.self_id
            &&& Handshake::parse(frame.payload) matches Ok(login) && login.user_id == s.self_id
                && login.token == token
        }),
{
    Handshake::law_round_trip(HandshakeModel { user_id: s.self_id, token });
}

/// An accepted login is told, and what was missed is asked for: the one frame that
/// is sent reads as a request for the messages behind the cursor that the client
/// keeps. Nothing that it keeps changes.
pub proof fn law_login_asks_for_what_was_missed(s: SessionModel, reply: FrameModel, session_id: u64)
    requires
        s.send_seq < u64::MAX,
        reply.cmd == Cmd::HandshakeAck,
        HandshakeAck::parse(reply.payload) matches Ok(ack) && ack.session_id == session_id,
        session_id != 0,
    ensures
        ({
            let t = reply_step(s, Some(reply));
            &&& t.outcome is None
            &&& t.session.local == s.local
            &&& t.session.self_id == s.self_id
            &&& t.session.send_seq == s.send_seq + 1
            &&& t.effects.len() == 2
            &&& t.effects[0] == EffectModel::Emit(EventModel::Connected { session_id })
            &&& t.effects[1] matches EffectModel::Send(frame) && {
                &&& frame.cmd == Cmd::SyncReq
                &&& frame.seq == s.send_seq + 1
                &&& SyncReq::parse(frame.payload) == Ok::<u64, ProtocolError>(s.local.cursor)
            }
        }),
{
    SyncReq::law_round_trip(s.local.cursor);
}

/// A refused login ends the client for the reason that the server gave, and one
/// that was not answered only the connection. Nothing is sent, and nothing changes.
pub proof fn law_login_that_fails(s: SessionModel, reply: Option<FrameModel>)
    ensures
        ({
            let t = reply_step(s, reply);
            let answer = match reply {
                Some(frame) => if frame.cmd == Cmd::HandshakeAck {
                    HandshakeAck::parse(frame.payload).ok()
                } else {
                    None
                },
                None => None,
            };
            &&& answer is None ==> t == (StepModel {
                session: s,
                effects: Seq::empty(),
                outcome: Some(OutcomeModel::Disconnected),
            })
            &&& answer matches Some(ack) ==> (ack.session_id == 0 ==> t == (StepModel {
                session: s,
                effects: Seq::empty(),
                outcome: Some(OutcomeModel::Rejected(ack.reason)),
            }))
            &&& answer matches Some(ack) ==> (ack.session_id != 0 ==> t.outcome is None)
        }),
{
}

/// The cursor of a message store that does what it is told.
pub open spec fn told_cursor(cursor: u64, effects: Seq<EffectModel>) -> u64
    decreases effects.len(),
{
    if effects.len() == 0 {
        cursor
    } else {
        match effects.last() {
            EffectModel::Store(StoreActionModel::SetSyncCursor(c)) => c,
            _ => told_cursor(cursor, effects.drop_last()),
        }
    }
}

/// The cursor is the largest number among the messages that were taken in.
pub open spec fn is_largest(old_cursor: u64, cursor: u64, taken: Seq<MsgModel>) -> bool {
    &&& cursor >= old_cursor
    &&& forall|i: int| 0 <= i < taken.len() ==> (#[trigger] taken[i]).msg_id <= cursor
    &&& cursor == old_cursor || exists|i: int|
        0 <= i < taken.len() && (#[trigger] taken[i]).msg_id == cursor
}

proof fn lemma_told_cursor_stored(cursor: u64, a: Seq<StoreActionModel>, b: Seq<StoreActionModel>)
    ensures
        told_cursor(cursor, stored(a + b)) == told_cursor(told_cursor(cursor, stored(a)), stored(b)),
    decreases b.len(),
{
    if b.len() == 0 {
        assert(a + b =~= a);
    } else {
        let c = b.drop_last();
        lemma_told_cursor_stored(cursor, a, c);
        assert(stored(a + b).drop_last() =~= stored(a + c));
        assert(stored(b).drop_last() =~= stored(c));
        assert(stored(a + b).last() == stored(b).last());
    }
}

proof fn lemma_told_cursor_of_one(local: LocalModel, msg: MsgModel)
    ensures
        ({
            let m = ingest_model(local, msg);
            &&& told_cursor(local.cursor, stored(m.actions)) == m.local.cursor
            &&& is_largest(local.cursor, m.local.cursor, m.fresh)
        }),
{
    let m = ingest_model(local, msg);
    if m.fresh.len() > 0 {
        assert(m.fresh[0] == msg);
        let e = stored(m.actions);
        if msg.msg_id > local.cursor {
            assert(e.last() == EffectModel::Store(StoreActionModel::SetSyncCursor(msg.msg_id)));
        } else {
            assert(e.last() == EffectModel::Store(StoreActionModel::AppendIncoming(msg)));
            assert(e.drop_last().len() == 0);
            assert(told_cursor(local.cursor, e.drop_last()) == local.cursor);
        }
    } else {
        assert(stored(m.actions) =~= Seq::<EffectModel>::empty());
    }
}

proof fn lemma_told_cursor_of_batch(local: LocalModel, batch: Seq<MsgModel>)
    ensures
        ({
            let m = ingest_batch_model(local, batch);
            &&& told_cursor(local.cursor, stored(m.actions)) == m.local.cursor
            &&& is_largest(local.cursor, m.local.cursor, m.fresh)
        }),
    decreases batch.len(),
{
    if batch.len() == 0 {
        assert(stored(ingest_batch_model(local, batch).actions) =~= Seq::<EffectModel>::empty());
    } else {
        let a = ingest_batch_model(local, batch.drop_last());
        let b = ingest_model(a.local, batch.last());
        let m = ingest_batch_model(local, batch);
        lemma_told_cursor_of_batch(local, batch.drop_last());
        lemma_told_cursor_of_one(a.local, batch.last());
        lemma_told_cursor_stored(local.cursor, a.actions, b.actions);
        assert forall|i: int| 0 <= i < m.fresh.len() implies (#[trigger] m.fresh[i]).msg_id
            <= m.local.cursor by {
            if i < a.fresh.len() {
                assert(m.fresh[i] == a.fresh[i]);
            } else {
                assert(m.fresh[i] == b.fresh[i - a.fresh.len()]);
            }
        }
        if m.local.cursor != local.cursor {
            if b.local.cursor != a.local.cursor {
                let i = choose|i: int|
                    0 <= i < b.fresh.len() && (#[trigger] b.fresh[i]).msg_id == b.local.cursor;
                assert(m.fresh[a.fresh.len() + i] == b.fresh[i]);
            } else {
                let i = choose|i: int|
                    0 <= i < a.fresh.len() && (#[trigger] a.fresh[i]).msg_id == a.local.cursor;
                assert(m.fresh[i] == a.fresh[i]);
            }
        }
    }
}

/// The messages that the effects tell the user of.
pub open spec fn told_messages(effects: Seq<EffectModel>) -> Seq<MsgModel>
    decreases effects.len(),
{
    if effects.len() == 0 {
        Seq::empty()
    } else {
        let before = told_messages(effects.drop_last());
        match effects.last() {
            EffectModel::Emit(EventModel::Message(msg)) => before.push(msg),
            EffectModel::Emit(EventModel::SyncBatch(batch)) => before + batch,
            _ => before,
        }
    }
}

proof fn lemma_told_cursor_past_told(cursor: u64, actions: Seq<StoreActionModel>, event: EventModel)
    ensures
        told_cursor(cursor, stored(actions).push(EffectModel::Emit(event))) == told_cursor(
            cursor,
            stored(actions),
        ),
        told_messages(stored(actions).push(EffectModel::Emit(event))) == match event {
            EventModel::Message(msg) => seq![msg],
            EventModel::SyncBatch(batch) => batch,
            _ => Seq::<MsgModel>::empty(),
        },
    decreases actions.len(),
{
    let all = stored(actions).push(EffectModel::Emit(event));
    assert(all.drop_last() =~= stored(actions));
    lemma_nothing_told(stored(actions));
    assert(told_messages(all) =~= match event {
        EventModel::Message(msg) => seq![msg],
        EventModel::SyncBatch(batch) => batch,
        _ => Seq::<MsgModel>::empty(),
    });
}

proof fn lemma_nothing_told(effects: Seq<EffectModel>)
    requires
        forall|i: int|
            #![trigger effects[i]]
            0 <= i < effects.len() ==> match effects[i] {
                EffectModel::Emit(EventModel::Message(_)) => false,
                EffectModel::Emit(EventModel::SyncBatch(_)) => false,
                _ => true,
            },
    ensures
        told_messages(effects).len() == 0,
    decreases effects.len(),
{
    if effects.len() > 0 {
        let t = effects.drop_last();
        assert forall|i: int| #![trigger t[i]] 0 <= i < t.len() implies match t[i] {
            EffectModel::Emit(EventModel::Message(_)) => false,
            EffectModel::Emit(EventModel::SyncBatch(_)) => false,
            _ => true,
        } by {
            assert(t[i] == effects[i]);
        }
        lemma_nothing_told(t);
        assert(effects.last() == effects[effects.len() - 1]);
    }
}

proof fn lemma_cursor_not_told(cursor: u64, effects: Seq<EffectModel>)
    requires
        forall|i: int|
            #![trigger effects[i]]
            0 <= i < effects.len() ==> !(effects[i] matches EffectModel::Store(
                StoreActionModel::SetSyncCursor(_),
            )),
    ensures
        told_cursor(cursor, effects) == cursor,
    decreases effects.len(),
{
    if effects.len() > 0 {
        let t = effects.drop_last();
        assert forall|i: int| #![trigger t[i]] 0 <= i < t.len() implies !(t[i] matches
            EffectModel::Store(StoreActionModel::SetSyncCursor(_))) by {
            assert(t[i] == effects[i]);
        }
        lemma_cursor_not_told(cursor, t);
        assert(effects.last() == effects[effects.len() - 1]);
    }
}

proof fn lemma_due_leaves_cursor(s: Seq<InflightModel>, now: Nanos, rto: Nanos, max: u32)
    ensures
        ({
            let actions = due_model(s, now, rto, max).actions;
            forall|i: int|
                #![trigger actions[i]]
                0 <= i < actions.len() ==> !(actions[i] is SetSyncCursor)
        }),
    decreases s.len(),
{
    if s.len() > 0 {
        lemma_due_leaves_cursor(s.drop_last(), now, rto, max);
        let a = due_model(s.drop_last(), now, rto, max).actions;
        let b = due_model(s, now, rto, max).actions;
        assert forall|i: int| #![trigger b[i]] 0 <= i < b.len() implies !(b[i] is SetSyncCursor) by {
            if i < a.len() {
                assert(b[i] == a[i]);
            }
        }
    }
}

/// What a step does to the cursor, and what the message store is told of it.
spec fn cursor_follows(s: SessionModel, t: StepModel) -> bool {
    &&& is_largest(s.local.cursor, t.session.local.cursor, told_messages(t.effects))
    &&& told_cursor(s.local.cursor, t.effects) == t.session.local.cursor
}

/// An effect that is neither about messages that arrived nor about the cursor.
spec fn beside_the_cursor(effect: EffectModel) -> bool {
    match effect {
        EffectModel::Emit(EventModel::Message(_)) => false,
        EffectModel::Emit(EventModel::SyncBatch(_)) => false,
        EffectModel::Store(StoreActionModel::SetSyncCursor(_)) => false,
        _ => true,
    }
}

proof fn lemma_cursor_stays(s: SessionModel, t: StepModel)
    requires
        t.session.local.cursor == s.local.cursor,
        forall|i: int| 0 <= i < t.effects.len() ==> beside_the_cursor(#[trigger] t.effects[i]),
    ensures
        cursor_follows(s, t),
{
    assert forall|i: int| #![trigger t.effects[i]] 0 <= i < t.effects.len() implies match t.effects[i] {
        EffectModel::Emit(EventModel::Message(_)) => false,
        EffectModel::Emit(EventModel::SyncBatch(_)) => false,
        _ => true,
    } by {
        assert(beside_the_cursor(t.effects[i]));
    }
    assert forall|i: int| #![trigger t.effects[i]] 0 <= i < t.effects.len() implies !(
    t.effects[i] matches EffectModel::Store(StoreActionModel::SetSyncCursor(_))) by {
        assert(beside_the_cursor(t.effects[i]));
    }
    lemma_nothing_told(t.effects);
    lemma_cursor_not_told(s.local.cursor, t.effects);
}

proof fn lemma_message_moves_cursor(s: SessionModel, frame: FrameModel, msg: MsgModel)
    requires
        frame.cmd == Cmd::Msg,
        Msg::parse(frame.payload) == Ok::<MsgModel, ProtocolError>(msg),
    ensures
        cursor_follows(s, frame_step(s, frame)),
{
    let m = ingest_model(s.local, msg);
    lemma_told_cursor_of_one(s.local, msg);
    lemma_told_cursor_past_told(s.local.cursor, m.actions, EventModel::Message(msg));
    if m.fresh.len() > 0 {
        assert(m.fresh =~= seq![msg]);
    }
}

proof fn lemma_batch_moves_cursor(s: SessionModel, frame: FrameModel, batch: Seq<MsgModel>)
    requires
        frame.cmd == Cmd::SyncResp,
        SyncResp::parse(frame.payload) == Ok::<Seq<MsgModel>, ProtocolError>(batch),
    ensures
        cursor_follows(s, frame_step(s, frame)),
{
    let m = ingest_batch_model(s.local, batch);
    lemma_told_cursor_of_batch(s.local, batch);
    lemma_told_cursor_past_told(s.local.cursor, m.actions, EventModel::SyncBatch(m.fresh));
    assert(m.fresh.len() == 0 ==> m.local.cursor == s.local.cursor);
}

proof fn lemma_frame_moves_cursor(s: SessionModel, frame: FrameModel)
    ensures
        cursor_follows(s, frame_step(s, frame)),
{
    if frame.cmd == Cmd::Msg && Msg::parse(frame.payload) is Ok {
        lemma_message_moves_cursor(s, frame, Msg::parse(frame.payload)->Ok_0);
    } else if frame.cmd == Cmd::SyncResp && SyncResp::parse(frame.payload) is Ok {
        lemma_batch_moves_cursor(s, frame, SyncResp::parse(frame.payload)->Ok_0);
    } else {
        lemma_cursor_stays(s, frame_step(s, frame));
    }
}

proof fn lemma_timer_leaves_cursor(s: SessionModel, now: Nanos)
    ensures
        cursor_follows(s, timer_step(s, now)),
{
    let o = s.local.outbox;
    let d = due_model(o.inflight, now, o.rto, o.max_attempts);
    lemma_due_leaves_cursor(o.inflight, now, o.rto, o.max_attempts);
    let a = stored(d.actions);
    let b = given_up(d.failed);
    let c = frames_of(d.resends, s.send_seq);
    let t = timer_step(s, now);
    assert forall|i: int| 0 <= i < t.effects.len() implies beside_the_cursor(
        #[trigger] t.effects[i],
    ) by {
        if i < a.len() {
            assert(t.effects[i] == EffectModel::Store(d.actions[i]));
        } else if i < a.len() + b.len() {
            assert(t.effects[i] == b[i - a.len()]);
        } else {
            assert(t.effects[i] == c[i - a.len() - b.len()]);
        }
    }
    lemma_cursor_stays(s, t);
}

/// The cursor from which the next login asks is the largest number among the
/// messages that the user was told of, and the message store knows it.
#[verifier::spinoff_prover]
pub proof fn law_cursor_is_the_largest_number(s: SessionModel, input: InputModel, now: Nanos)
    ensures
        ({
            let t = step_model(s, input, now);
            &&& is_largest(s.local.cursor, t.session.local.cursor, told_messages(t.effects))
            &&& told_cursor(s.local.cursor, t.effects) == t.session.local.cursor
        }),
{
    let t = step_model(s, input, now);
    assert(cursor_follows(s, t)) by {
        match input {
            InputModel::Arrived(frame) => {
                lemma_frame_moves_cursor(s, frame);
            },
            InputModel::Timer => {
                lemma_timer_leaves_cursor(s, now);
            },
            _ => {
                lemma_cursor_stays(s, t);
            },
        }
    }
}

/// A message that is not known is told, as it was sent, and is known from then on;
/// what waits to be confirmed is not touched.
pub proof fn law_new_message_is_told(s: SessionModel, frame: FrameModel, msg: MsgModel)
    requires
        frame.cmd == Cmd::Msg,
        Msg::parse(frame.payload) == Ok::<MsgModel, ProtocolError>(msg),
        !s.local.window.contains((msg.from, msg.client_msg_id)),
    ensures
        ({
            let t = frame_step(s, frame);
            &&& t.outcome is None
            &&& told_messages(t.effects) == seq![msg]
            &&& t.session.local.outbox == s.local.outbox
            &&& s.local.limit > 0 ==> t.session.local.window.contains((msg.from, msg.client_msg_id))
        }),
{
    let m = ingest_model(s.local, msg);
    lemma_told_cursor_past_told(s.local.cursor, m.actions, EventModel::Message(msg));
    let w = m.local.window;
    if s.local.limit > 0 {
        assert(w.last() == (msg.from, msg.client_msg_id));
        assert(w.contains(w[w.len() - 1]));
    }
}

/// A message of the user's is queued, told and sent: the one frame reads as the
/// message, and what waits afterwards is what waited before and this message, which
/// is due when the first wait is over.
pub proof fn law_command_is_sent(
    s: SessionModel,
    client_msg_id: u64,
    to: u64,
    content: Seq<u8>,
    now: Nanos,
)
    requires
        in_range(s, now),
        content.len() <= usize::MAX,
    ensures
        ({
            let t = step_model(s, InputModel::Command { client_msg_id, to, content }, now);
            let waiting = t.session.local.outbox.inflight;
            &&& t.outcome is None
            &&& t.effects.len() == 2
            &&& t.effects[0] == EffectModel::Emit(
                EventModel::MessageQueued { client_msg_id, to, content },
            )
            &&& t.effects[1] matches EffectModel::Send(frame) && {
                &&& frame.cmd == Cmd::Msg
                &&& Msg::parse(frame.payload) matches Ok(msg) && {
                    &&& msg.to == to
                    &&& msg.client_msg_id == client_msg_id
                    &&& msg.content == content
                }
            }
            &&& waiting.len() == s.local.outbox.inflight.len() + 1
            &&& waiting.drop_last() == s.local.outbox.inflight
            &&& waiting.last().client_msg_id == client_msg_id
            &&& waiting.last().to == to
            &&& waiting.last().content == content
            &&& waiting.last().attempts == 1
            &&& waiting.last().deadline == now + s.local.outbox.rto
        }),
{
    let t = step_model(s, InputModel::Command { client_msg_id, to, content }, now);
    let waiting = t.session.local.outbox.inflight;
    Msg::law_round_trip(outgoing(waiting.last()));
    assert(waiting.drop_last() =~= s.local.outbox.inflight);
}

/// A confirmation is told with both numbers, and ends the wait of the message with
/// that number: the message store files it as sent by the user, with what it said
/// and to whom. Nothing else that waits is touched.
pub proof fn law_confirmation_ends_the_wait(s: SessionModel, frame: FrameModel, ack: MsgAck, i: int)
    requires
        frame.cmd == Cmd::MsgAck,
        MsgAck::parse(frame.payload) == Ok::<MsgAck, ProtocolError>(ack),
        0 <= i < s.local.outbox.inflight.len(),
        s.local.outbox.inflight[i].client_msg_id == ack.client_msg_id,
        forall|j: int|
            0 <= j < s.local.outbox.inflight.len() && j != i ==> (
            #[trigger] s.local.outbox.inflight[j]).client_msg_id != ack.client_msg_id,
    ensures
        ({
            let t = frame_step(s, frame);
            let m = s.local.outbox.inflight[i];
            &&& t.outcome is None
            &&& t.session.local.outbox.inflight == s.local.outbox.inflight.remove(i)
            &&& t.session.local.cursor == s.local.cursor
            &&& t.session.local.window == s.local.window
            &&& t.effects == seq![
                EffectModel::Store(
                    StoreActionModel::AckOutgoing {
                        client_msg_id: ack.client_msg_id,
                        msg_id: ack.msg_id,
                        from: s.self_id,
                        to: m.to,
                        content: m.content,
                    },
                ),
                EffectModel::Emit(
                    EventModel::Ack { msg_id: ack.msg_id, client_msg_id: ack.client_msg_id },
                ),
            ]
        }),
{
    let waiting = s.local.outbox.inflight;
    lemma_position_of(waiting, ack.client_msg_id);
    let p = position_of(waiting, ack.client_msg_id) as int;
    if p > i {
        assert(waiting[i].client_msg_id != ack.client_msg_id);
    } else if p < i {
        assert(waiting[p].client_msg_id != ack.client_msg_id);
    }
}

/// A confirmation of a message that does not wait is told all the same, and changes
/// nothing.
pub proof fn law_second_confirmation_is_told(s: SessionModel, frame: FrameModel, ack: MsgAck)
    requires
        frame.cmd == Cmd::MsgAck,
        MsgAck::parse(frame.payload) == Ok::<MsgAck, ProtocolError>(ack),
        forall|j: int|
            0 <= j < s.local.outbox.inflight.len() ==> (
            #[trigger] s.local.outbox.inflight[j]).client_msg_id != ack.client_msg_id,
    ensures
        ({
            let t = frame_step(s, frame);
            &&& t.session == s
            &&& t.outcome is None
            &&& t.effects == seq![
                EffectModel::Emit(
                    EventModel::Ack { msg_id: ack.msg_id, client_msg_id: ack.client_msg_id },
                ),
            ]
        }),
{
    let waiting = s.local.outbox.inflight;
    lemma_position_of(waiting, ack.client_msg_id);
    let p = position_of(waiting, ack.client_msg_id) as int;
    if p < waiting.len() {
        assert(waiting[p].client_msg_id != ack.client_msg_id);
    }
}

/// A frame that cannot be read, or that is not about messages, is passed over.
pub proof fn law_unreadable_frame_is_passed_over(s: SessionModel, frame: FrameModel)
    requires
        frame.cmd == Cmd::Msg ==> Msg::parse(frame.payload) is Err,
        frame.cmd == Cmd::MsgAck ==> MsgAck::parse(frame.payload) is Err,
        frame.cmd == Cmd::SyncResp ==> SyncResp::parse(frame.payload) is Err,
    ensures
        frame_step(s, frame).session == s,
        frame_step(s, frame).effects.len() == 0,
        frame_step(s, frame).outcome is None,
{
}

/// On a new connection every message that waits is sent once, in the order in which
/// they were sent first, and its wait begins anew; none is counted as a further
/// attempt.
pub proof fn law_reconnection_sends_what_waits(s: SessionModel, now: Nanos, i: int)
    requires
        in_range(s, now),
        0 <= i < s.local.outbox.inflight.len(),
        s.local.outbox.inflight[i].content.len() <= usize::MAX,
    ensures
        ({
            let t = start_step(s, now);
            let m = s.local.outbox.inflight[i];
            let left = t.session.local.outbox.inflight;
            &&& t.effects.len() == s.local.outbox.inflight.len()
            &&& t.effects[i] matches EffectModel::Send(frame) && {
                &&& frame.cmd == Cmd::Msg
                &&& frame.seq == s.send_seq + 1 + i
                &&& Msg::parse(frame.payload) matches Ok(msg) && {
                    &&& msg.to == m.to
                    &&& msg.client_msg_id == m.client_msg_id
                    &&& msg.content == m.content
                }
            }
            &&& left.len() == s.local.outbox.inflight.len()
            &&& same_message(left[i], m)
            &&& left[i].attempts == m.attempts
            &&& left[i].deadline == now + s.local.outbox.rto
        }),
{
    Msg::law_round_trip(outgoing(s.local.outbox.inflight[i]));
}

/// When messages are due, everything that follows is done: the message store learns of
/// each, the user of each that is given up, and each that is sent again goes out in a
/// frame that reads as the message.
pub proof fn law_timer_does_what_is_due(s: SessionModel, now: Nanos, k: int)
    requires
        in_range(s, now),
        forall|i: int|
            0 <= i < s.local.outbox.inflight.len() ==> (
            #[trigger] s.local.outbox.inflight[i]).content.len() <= usize::MAX,
    ensures
        ({
            let o = s.local.outbox;
            let d = due_model(o.inflight, now, o.rto, o.max_attempts);
            let t = step_model(s, InputModel::Timer, now);
            let at = d.actions.len() + d.failed.len() + k;
            &&& t.outcome is None
            &&& t.session.local.outbox.inflight == d.kept
            &&& t.session.local.cursor == s.local.cursor && t.session.local.window
                == s.local.window
            &&& t.effects.len() == d.actions.len() + d.failed.len() + d.resends.len()
            &&& 0 <= k < d.actions.len() ==> t.effects[k] == EffectModel::Store(d.actions[k])
            &&& 0 <= k < d.failed.len() ==> t.effects[d.actions.len() + k] == EffectModel::Emit(
                EventModel::SendFailed { client_msg_id: d.failed[k] },
            )
            &&& 0 <= k < d.resends.len() ==> (t.effects[at] matches EffectModel::Send(frame) && {
                &&& frame.cmd == Cmd::Msg
                &&& frame.seq == s.send_seq + 1 + k
                &&& Msg::parse(frame.payload) == Ok::<MsgModel, ProtocolError>(d.resends[k])
            })
        }),
{
    let o = s.local.outbox;
    let d = due_model(o.inflight, now, o.rto, o.max_attempts);
    let t = step_model(s, InputModel::Timer, now);
    lemma_resends_len(o.inflight, now, o.rto, o.max_attempts);
    if 0 <= k < d.resends.len() {
        lemma_resends_fit(o.inflight, now, o.rto, o.max_attempts);
        Msg::law_round_trip(d.resends[k]);
        assert(t.effects[d.actions.len() + d.failed.len() + k] == frames_of(
            d.resends,
            s.send_seq,
        )[k]);
    }
    if 0 <= k < d.failed.len() {
        assert(t.effects[d.actions.len() + k] == given_up(d.failed)[k]);
    }
}

proof fn lemma_resends_fit(s: Seq<InflightModel>, now: Nanos, rto: Nanos, max: u32)
    requires
        forall|i: int| 0 <= i < s.len() ==> (#[trigger] s[i]).content.len() <= usize::MAX,
    ensures
        forall|k: int|
            0 <= k < due_model(s, now, rto, max).resends.len() ==> (#[trigger] due_model(
                s,
                now,
                rto,
                max,
            ).resends[k]).content.len() <= usize::MAX,
    decreases s.len(),
{
    if s.len() > 0 {
        let t = s.drop_last();
        assert forall|i: int| 0 <= i < t.len() implies (#[trigger] t[i]).content.len()
            <= usize::MAX by {
            assert(t[i] == s[i]);
        }
        lemma_resends_fit(t, now, rto, max);
        assert(s[s.len() - 1].content.len() <= usize::MAX);
        let d = due_model(s, now, rto, max);
        let e = due_model(t, now, rto, max);
        assert forall|k: int| 0 <= k < d.resends.len() implies (#[trigger] d.resends[k]).content.len()
            <= usize::MAX by {
            if k < e.resends.len() {
                assert(d.resends[k] == e.resends[k]);
            }
        }
    }
}

/// The key under which a message is known.
spec fn key_of(msg: MsgModel) -> (u64, u64) {
    (msg.from, msg.client_msg_id)
}

proof fn lemma_window_of_batch(local: LocalModel, batch: Seq<MsgModel>, key: (u64, u64))
    requires
        local.limit >= 1,
    ensures
        ingest_batch_model(local, batch).local.limit == local.limit,
        ingest_batch_model(local, batch).local.window.contains(key) ==> local.window.contains(key)
            || exists|i: int| 0 <= i < batch.len() && key_of(#[trigger] batch[i]) == key,
    decreases batch.len(),
{
    if batch.len() > 0 {
        let t = batch.drop_last();
        let a = ingest_batch_model(local, t);
        let b = ingest_model(a.local, batch.last());
        lemma_window_of_batch(local, t, key);
        if b.local.window.contains(key) {
            let w = a.local.window;
            if w.contains(key) {
                if !local.window.contains(key) {
                    let i = choose|i: int| 0 <= i < t.len() && key_of(#[trigger] t[i]) == key;
                    assert(batch[i] == t[i]);
                }
            } else {
                let last = key_of(batch.last());
                let i = choose|i: int|
                    0 <= i < b.local.window.len() && b.local.window[i] == key;
                assert(key == last) by {
                    if i < b.local.window.len() - 1 {
                        if w.len() >= a.local.limit {
                            assert(w.skip(1)[i] == w[i + 1]);
                            assert(w.contains(w[i + 1]));
                        } else {
                            assert(w.contains(w[i]));
                        }
                    }
                }
                assert(key_of(batch[batch.len() - 1]) == key);
            }
        }
    }
}

/// The messages that were missed are told: each that is not known, and that no earlier
/// one of the batch is, and only messages of the batch are.
pub proof fn law_batch_tells_every_new_message(
    s: SessionModel,
    frame: FrameModel,
    batch: Seq<MsgModel>,
    i: int,
)
    requires
        frame.cmd == Cmd::SyncResp,
        SyncResp::parse(frame.payload) == Ok::<Seq<MsgModel>, ProtocolError>(batch),
        s.local.limit >= 1,
        0 <= i < batch.len(),
        !s.local.window.contains((batch[i].from, batch[i].client_msg_id)),
        forall|j: int|
            0 <= j < i ==> ((#[trigger] batch[j]).from, batch[j].client_msg_id) != (
                batch[i].from,
                batch[i].client_msg_id,
            ),
    ensures
        told_messages(frame_step(s, frame).effects).contains(batch[i]),
        forall|m: MsgModel|
            told_messages(frame_step(s, frame).effects).contains(m) ==> #[trigger] batch.contains(
                m,
            ),
        frame_step(s, frame).session.local.outbox == s.local.outbox,
{
    let m = ingest_batch_model(s.local, batch);
    lemma_batch_is_fresh(s.local, batch, i);
    lemma_fresh_is_of_batch(s.local, batch);
    lemma_ingest_batch(s.local, batch);
    lemma_told_cursor_past_told(s.local.cursor, m.actions, EventModel::SyncBatch(m.fresh));
}

proof fn lemma_fresh_is_of_batch(local: LocalModel, batch: Seq<MsgModel>)
    ensures
        forall|m: MsgModel|
            ingest_batch_model(local, batch).fresh.contains(m) ==> #[trigger] batch.contains(m),
    decreases batch.len(),
{
    if batch.len() > 0 {
        let t = batch.drop_last();
        lemma_fresh_is_of_batch(local, t);
        let a = ingest_batch_model(local, t);
        let b = ingest_model(a.local, batch.last());
        assert forall|m: MsgModel|
            ingest_batch_model(local, batch).fresh.contains(m) implies #[trigger] batch.contains(
            m,
        ) by {
            let k = choose|k: int| 0 <= k < (a.fresh + b.fresh).len() && (a.fresh + b.fresh)[k] == m;
            if k < a.fresh.len() {
                assert(a.fresh.contains(a.fresh[k]));
                assert(t.contains(m));
                let j = choose|j: int| 0 <= j < t.len() && t[j] == m;
                assert(batch[j] == m);
            } else {
                assert(b.fresh[k - a.fresh.len()] == m);
                assert(batch[batch.len() - 1] == m);
            }
        }
    }
}

proof fn lemma_batch_is_fresh(local: LocalModel, batch: Seq<MsgModel>, i: int)
    requires
        local.limit >= 1,
        0 <= i < batch.len(),
        !local.window.contains(key_of(batch[i])),
        forall|j: int| 0 <= j < i ==> key_of(#[trigger] batch[j]) != key_of(batch[i]),
    ensures
        ingest_batch_model(local, batch).fresh.contains(batch[i]),
    decreases batch.len(),
{
    let t = batch.drop_last();
    let a = ingest_batch_model(local, t);
    let b = ingest_model(a.local, batch.last());
    let fresh = ingest_batch_model(local, batch).fresh;
    assert(fresh == a.fresh + b.fresh);
    if i < t.len() {
        assert(t[i] == batch[i]);
        assert forall|j: int| 0 <= j < i implies key_of(#[trigger] t[j]) != key_of(t[i]) by {
            assert(t[j] == batch[j]);
        }
        lemma_batch_is_fresh(local, t, i);
        let k = choose|k: int| 0 <= k < a.fresh.len() && a.fresh[k] == batch[i];
        assert(fresh[k] == batch[i]);
    } else {
        lemma_window_of_batch(local, t, key_of(batch[i]));
        if a.local.window.contains(key_of(batch[i])) {
            let j = choose|j: int| 0 <= j < t.len() && key_of(#[trigger] t[j]) == key_of(batch[i]);
            assert(batch[j] == t[j]);
        }
        assert(fresh[a.fresh.len() as int] == b.fresh[0]);
    }
}

/// What ends a connection: the user's wish ends the client, a lost connection only
/// the connection; neither changes what the client keeps, and nothing else ends it.
pub proof fn law_what_ends_a_connection(s: SessionModel, input: InputModel, now: Nanos)
    ensures
        ({
            let t = step_model(s, input, now);
            &&& t.outcome is Some <==> input is Shutdown || input is CommandsClosed
                || input is FramesClosed
            &&& t.outcome is Some ==> t.session == s && t.effects.len() == 0
            &&& input is Shutdown || input is CommandsClosed ==> t.outcome == Some(
                OutcomeModel::Stopped,
            )
            &&& input is FramesClosed ==> t.outcome == Some(OutcomeModel::Disconnected)
            &&& t.session.self_id == s.self_id
        }),
{
}

// ---------------------------------------------------------------------------
// The steps
// ---------------------------------------------------------------------------

/// Makes effects of what the message store is told.
fn push_actions(effects: &mut Vec<Effect>, actions: Vec<StoreAction>)
    ensures
        effect_views(final(effects)@) == effect_views(old(effects)@) + stored(
            action_views(actions@),
        ),
{
    let ghost all = actions@;
    let mut rest = actions;
    let ghost before = effect_views(effects@);
    let mut taken: Vec<StoreAction> = Vec::new();
    while rest.len() > 0
        invariant
            taken@.len() + rest@.len() == all.len(),
            rest@ =~= all.take(rest@.len() as int),
            forall|k: int|
                0 <= k < taken@.len() ==> #[trigger] taken@[k] == all[all.len() - 1 - k],
        decreases rest@.len(),
    {
        if let Some(action) = rest.pop() {
            taken.push(action);
        }
    }
    assert(stored(action_views(all)).take(0) =~= Seq::<EffectModel>::empty());
    assert(before + Seq::<EffectModel>::empty() =~= before);
    while taken.len() > 0
        invariant
            taken@.len() <= all.len(),
            forall|k: int|
                0 <= k < taken@.len() ==> #[trigger] taken@[k] == all[all.len() - 1 - k],
            effect_views(effects@) =~= before + stored(action_views(all)).take(
                all.len() - taken@.len(),
            ),
        decreases taken@.len(),
    {
        let ghost n = all.len() - taken@.len();
        let ghost had = effect_views(effects@);
        if let Some(action) = taken.pop() {
            effects.push(Effect::Store(action));
            proof {
                let s = stored(action_views(all));
                assert(action == all[n]);
                assert(s[n] == EffectModel::Store(action@));
                assert(effect_views(effects@) =~= had.push(s[n]));
                assert(s.take(n + 1) =~= s.take(n).push(s[n]));
            }
        }
    }
    assert(stored(action_views(all)).take(all.len() as int) =~= stored(action_views(all)));
}

impl Session {
    /// What the client keeps is in order.
    pub closed spec fn wf(&self) -> bool {
        self.local.wf()
    }

    /// The client of a user, before its first connection.
    #[must_use]
    pub fn new(local: LocalState, self_id: u64) -> (r: Self)
        requires
            local.wf(),
        ensures
            r.wf(),
            r@ == (SessionModel { local: local@, send_seq: 0, self_id }),
    {
        Session { local, send_seq: 0, self_id }
    }

    /// When the next message is due.
    #[must_use]
    pub fn next_deadline(&self) -> (r: Option<Nanos>)
        ensures
            r == earliest(self@.local.outbox.inflight),
    {
        self.local.next_deadline()
    }

    /// A connection is made: the login, with which the numbers of its frames
    /// begin.
    pub fn connect_once(&mut self, token: &str) -> (r: Frame)
        requires
            old(self).wf(),
        ensures
            final(self).wf(),
            final(self)@ == (SessionModel { send_seq: 1, ..old(self)@ }),
            r@ == frame_around::<Handshake>(
                (HandshakeModel { user_id: old(self)@.self_id, token: token@ }),
                1,
            ),
            (final(self)@, r@) == login_step(old(self)@, token@),
    {
        self.send_seq = 1;
        let login = Handshake { user_id: self.self_id, token: token.to_owned() };
        login.encode_frame(self.send_seq, 0)
    }

    /// The answer to the login arrived, or none did.
    pub fn connect_once_reply(&mut self, reply: Option<&Frame>) -> (r: Step)
        requires
            old(self).wf(),
            old(self)@.send_seq < u64::MAX,
        ensures
            final(self).wf(),
            ({
                let t = reply_step(
                    old(self)@,
                    match reply {
                        Some(frame) => Some(frame@),
                        None => None,
                    },
                );
                &&& final(self)@ == t.session
                &&& effect_views(r.effects@) == t.effects
                &&& outcome_view(r.outcome) == t.outcome
            }),
    {
        let mut effects: Vec<Effect> = Vec::new();
        assert(effect_views(effects@) =~= Seq::<EffectModel>::empty());
        let frame = match reply {
            None => return Step { effects, outcome: Some(Outcome::Disconnected) },
            Some(frame) => frame,
        };
        let ack = match HandshakeAck::decode_frame(frame) {
            Err(_) => return Step { effects, outcome: Some(Outcome::Disconnected) },
            Ok(ack) => ack,
        };
        if !ack.is_accepted() {
            return Step { effects, outcome: Some(Outcome::Rejected(ack.reason)) };
        }
        effects.push(Effect::Emit(ClientEvent::Connected { session_id: ack.session_id }));
        self.send_seq = self.send_seq + 1;
        let request = SyncReq { since: self.local.cursor };
        effects.push(Effect::Send(request.encode_frame(self.send_seq, 0)));
        assert(effect_views(effects@) =~= reply_step(old(self)@, Some(frame@)).effects);
        Step { effects, outcome: None }
    }

    /// Whether the clock and the frame numbers leave room for what may be sent at
    /// `now`.
    #[must_use]
    pub fn has_room(&self, now: Nanos) -> (r: bool)
        requires
            self.wf(),
        ensures
            r == in_range(self@, now),
    {
        let waiting: u64 = self.local.outbox.len() as u64;
        now <= u128::MAX - self.local.outbox.retry_timeout() && now <= u128::MAX - RETRY_DELAY_CAP
            && waiting < u64::MAX && self.send_seq <= u64::MAX - waiting - 1
    }

    /// The login was accepted: every message that waits is sent.
    pub fn message_loop_start(&mut self, now: Nanos) -> (r: Vec<Effect>)
        requires
            old(self).wf(),
            in_range(old(self)@, now),
        ensures
            final(self).wf(),
            ({
                let s = old(self)@;
                let o = s.local.outbox;
                let msgs = o.inflight.map_values(|m: InflightModel| outgoing(m));
                &&& final(self)@ == (SessionModel {
                    local: LocalModel {
                        outbox: OutboxModel {
                            inflight: o.inflight.map_values(
                                |m: InflightModel|
                                    InflightModel { deadline: (now + o.rto) as u128, ..m },
                            ),
                            ..o
                        },
                        ..s.local
                    },
                    send_seq: (s.send_seq + o.inflight.len()) as u64,
                    ..s
                })
                &&& effect_views(r@) == frames_of(msgs, s.send_seq)
            }),
            final(self)@ == start_step(old(self)@, now).session,
            effect_views(r@) == start_step(old(self)@, now).effects,
    {
        let mut effects: Vec<Effect> = Vec::new();
        let resends = self.local.outbox.resends(now);
        assert(msg_views(resends@).len() == old(self)@.local.outbox.inflight.len());
        self.send_batch(&resends, &mut effects);
        assert(effect_views(effects@) =~= frames_of(msg_views(resends@), old(self)@.send_seq));
        effects
    }

    /// Something happened while the connection lasts.
    pub fn message_loop_step(&mut self, input: Input, now: Nanos) -> (r: Step)
        requires
            old(self).wf(),
            in_range(old(self)@, now),
        ensures
            final(self).wf(),
            ({
                let t = step_model(old(self)@, input@, now);
                &&& final(self)@ == t.session
                &&& effect_views(r.effects@) == t.effects
                &&& outcome_view(r.outcome) == t.outcome
            }),
    {
        match input {
            Input::Shutdown => Self::end(Outcome::Stopped),
            Input::CommandsClosed => Self::end(Outcome::Stopped),
            Input::FramesClosed => Self::end(Outcome::Disconnected),
            Input::Command { client_msg_id, to, content } => self.on_command(
                client_msg_id,
                to,
                content,
                now,
            ),
            Input::Timer => self.on_timer(now),
            Input::Arrived(frame) => self.on_frame(&frame),
        }
    }

    fn end(outcome: Outcome) -> (r: Step)
        ensures
            effect_views(r.effects@) == Seq::<EffectModel>::empty(),
            outcome_view(r.outcome) == Some(outcome@),
    {
        let effects: Vec<Effect> = Vec::new();
        assert(effect_views(effects@) =~= Seq::<EffectModel>::empty());
        Step { effects, outcome: Some(outcome) }
    }

    fn on_command(&mut self, client_msg_id: u64, to: u64, content: Bytes, now: Nanos) -> (r: Step)
        requires
            old(self).wf(),
            in_range(old(self)@, now),
        ensures
            final(self).wf(),
            ({
                let t = command_step(old(self)@, client_msg_id, to, bytes_content(content), now);
                &&& final(self)@ == t.session
                &&& effect_views(r.effects@) == t.effects
                &&& outcome_view(r.outcome) == t.outcome
            }),
    {
        let mut effects: Vec<Effect> = Vec::new();
        let msg = self.local.outbox.enqueue(client_msg_id, to, content, now);
        effects.push(
            Effect::Emit(
                ClientEvent::MessageQueued {
                    client_msg_id: msg.client_msg_id,
                    to: msg.to,
                    content: msg.content.clone(),
                },
            ),
        );
        self.send_seq = self.send_seq + 1;
        effects.push(Effect::Send(msg.encode_frame(self.send_seq, 0)));
        assert(effect_views(effects@) =~= command_step(
            old(self)@,
            client_msg_id,
            to,
            bytes_content(content),
            now,
        ).effects);
        Step { effects, outcome: None }
    }

    fn on_timer(&mut self, now: Nanos) -> (r: Step)
        requires
            old(self).wf(),
            in_range(old(self)@, now),
        ensures
            final(self).wf(),
            ({
                let t = timer_step(old(self)@, now);
                &&& final(self)@ == t.session
                &&& effect_views(r.effects@) == t.effects
                &&& outcome_view(r.outcome) == t.outcome
            }),
    {
        let ghost o = self@.local.outbox;
        let ghost d = due_model(o.inflight, now, o.rto, o.max_attempts);
        proof {
            lemma_resends_len(o.inflight, now, o.rto, o.max_attempts);
        }
        let mut effects: Vec<Effect> = Vec::new();
        assert(effect_views(effects@) =~= Seq::<EffectModel>::empty());
        let Due { actions, resends, failed } = self.local.outbox.due(now);
        assert(msg_views(resends@).len() == resends@.len());
        push_actions(&mut effects, actions);
        let ghost first = effect_views(effects@);
        assert(first =~= stored(d.actions));
        let mut i: usize = 0;
        assert(given_up(d.failed).take(0) =~= Seq::<EffectModel>::empty());
        while i < failed.len()
            invariant
                i <= failed@.len(),
                failed@ == d.failed,
                effect_views(effects@) =~= first + given_up(d.failed).take(i as int),
            decreases failed@.len() - i,
        {
            let ghost had = effect_views(effects@);
            let id: u64 = failed[i];
            effects.push(Effect::Emit(ClientEvent::SendFailed { client_msg_id: id }));
            proof {
                let g = given_up(d.failed);
                assert(effect_views(effects@) =~= had.push(g[i as int]));
                assert(g.take(i + 1) =~= g.take(i as int).push(g[i as int]));
            }
            i = i + 1;
        }
        assert(given_up(d.failed).take(i as int) =~= given_up(d.failed));
        self.send_batch(&resends, &mut effects);
        assert(effect_views(effects@) =~= timer_step(old(self)@, now).effects);
        Step { effects, outcome: None }
    }

    fn on_frame(&mut self, frame: &Frame) -> (r: Step)
        requires
            old(self).wf(),
        ensures
            final(self).wf(),
            ({
                let t = frame_step(old(self)@, frame@);
                &&& final(self)@ == t.session
                &&& effect_views(r.effects@) == t.effects
                &&& outcome_view(r.outcome) == t.outcome
            }),
    {
        let ghost t = frame_step(old(self)@, frame@);
        let mut effects: Vec<Effect> = Vec::new();
        let mut actions: Vec<StoreAction> = Vec::new();
        assert(effect_views(effects@) =~= Seq::<EffectModel>::empty());
        assert(action_views(actions@) =~= Seq::<StoreActionModel>::empty());
        match frame.cmd {
            Cmd::Msg => {
                if let Ok(msg) = Msg::decode_frame(frame) {
                    let ghost m = ingest_model(self@.local, msg@);
                    if let Some(fresh) = self.local.ingest(msg, &mut actions) {
                        assert(m.fresh.len() == 1);
                        assert(m.fresh[0] == fresh@);
                        assert(action_views(actions@) =~= m.actions);
                        push_actions(&mut effects, actions);
                        effects.push(Effect::Emit(ClientEvent::Message(fresh)));
                        assert(effect_views(effects@) =~= t.effects);
                    }
                }
            },
            Cmd::MsgAck => {
                if let Ok(ack) = MsgAck::decode_frame(frame) {
                    if let Some(action) = self.local.outbox.ack(
                        ack.client_msg_id,
                        ack.msg_id,
                        self.self_id,
                    ) {
                        effects.push(Effect::Store(action));
                    }
                    effects.push(
                        Effect::Emit(
                            ClientEvent::Ack {
                                msg_id: ack.msg_id,
                                client_msg_id: ack.client_msg_id,
                            },
                        ),
                    );
                    assert(effect_views(effects@) =~= t.effects);
                }
            },
            Cmd::SyncResp => {
                if let Ok(resp) = SyncResp::decode_frame(frame) {
                    let ghost m = ingest_batch_model(self@.local, resp@);
                    assert(msg_views(resp.messages@) =~= resp@);
                    let fresh = self.local.ingest_batch(&resp.messages, &mut actions);
                    assert(action_views(actions@) =~= m.actions);
                    assert(msg_views(fresh@).len() == fresh@.len());
                    if fresh.len() > 0 {
                        push_actions(&mut effects, actions);
                        effects.push(Effect::Emit(ClientEvent::SyncBatch(fresh)));
                        assert(effect_views(effects@) =~= t.effects);
                    }
                }
            },
            _ => {},
        }
        assert(effect_views(effects@) =~= t.effects);
        Step { effects, outcome: None }
    }

    /// Sends messages one after the other.
    fn send_batch(&mut self, msgs: &Vec<Msg>, effects: &mut Vec<Effect>)
        requires
            old(self).wf(),
            old(self)@.send_seq + msgs@.len() <= u64::MAX,
        ensures
            final(self).wf(),
            final(self)@ == (SessionModel {
                send_seq: (old(self)@.send_seq + msgs@.len()) as u64,
                ..old(self)@
            }),
            effect_views(final(effects)@) == effect_views(old(effects)@) + frames_of(
                msg_views(msgs@),
                old(self)@.send_seq,
            ),
    {
        let ghost s = self@;
        let ghost before = effect_views(effects@);
        let ghost all = frames_of(msg_views(msgs@), s.send_seq);
        let mut i: usize = 0;
        assert(all.take(0) =~= Seq::<EffectModel>::empty());
        while i < msgs.len()
            invariant
                i <= msgs@.len(),
                self.wf(),
                s.send_seq + msgs@.len() <= u64::MAX,
                all == frames_of(msg_views(msgs@), s.send_seq),
                self@ == (SessionModel { send_seq: (s.send_seq + i) as u64, ..s }),
                effect_views(effects@) =~= before + all.take(i as int),
            decreases msgs@.len() - i,
        {
            let ghost had = effect_views(effects@);
            self.send_seq = self.send_seq + 1;
            effects.push(Effect::Send(msgs[i].encode_frame(self.send_seq, 0)));
            proof {
                assert(effect_views(effects@) =~= had.push(all[i as int]));
                assert(all.take(i + 1) =~= all.take(i as int).push(all[i as int]));
            }
            i = i + 1;
        }
        assert(all.take(i as int) =~= all);
    }
}

} // verus!
