//! Events in one shape, one at a time.

use std::collections::VecDeque;
use bytes::Bytes;
use vstd::prelude::*;
use vstd::utf8::encode_utf8;
use crate::client::client::ClientConfig;
use crate::client::event::{ClientEvent, EventModel};
use crate::client::message::{Msg, MsgModel};
use crate::client::outbox::msg_views;
use crate::octets::{bytes_as_slice, bytes_content, copy_range};
use crate::sdk::error::{ERR_POLL_WITH_CALLBACK, ERR_STOPPED};

verus! {

/// The login was accepted.
pub const EVENT_CONNECTED: i32 = 0;

/// The connection is gone.
pub const EVENT_DISCONNECTED: i32 = 1;

/// A message arrived.
pub const EVENT_MESSAGE: i32 = 2;

/// A message is on its way.
pub const EVENT_MESSAGE_QUEUED: i32 = 3;

/// A message was confirmed.
pub const EVENT_ACK: i32 = 4;

/// The login was refused.
pub const EVENT_REJECTED: i32 = 5;

/// A message was given up.
pub const EVENT_SEND_FAILED: i32 = 6;

/// An event in the shape that other languages see: fields that an event has no
/// use for are zero.
#[derive(Debug, Clone, PartialEq, Eq)]
pub struct ImSdkEvent {
    /// What happened.
    pub type_: i32,
    /// The session.
    pub session_id: u64,
    /// The server's number of a message.
    pub msg_id: u64,
    /// The sender's number of a message.
    pub client_msg_id: u64,
    /// The sender.
    pub from: u64,
    /// The recipient.
    pub to: u64,
    /// What a message says, or why a login was refused.
    pub data: Vec<u8>,
}

/// What an [`ImSdkEvent`] says.
#[verifier::ext_equal]
pub struct FlatModel {
    pub type_: i32,
    pub session_id: u64,
    pub msg_id: u64,
    pub client_msg_id: u64,
    pub from: u64,
    pub to: u64,
    pub data: Seq<u8>,
}

impl View for ImSdkEvent {
    type V = FlatModel;

    open spec fn view(&self) -> FlatModel {
        FlatModel {
            type_: self.type_,
            session_id: self.session_id,
            msg_id: self.msg_id,
            client_msg_id: self.client_msg_id,
            from: self.from,
            to: self.to,
            data: self.data@,
        }
    }
}

/// An event in which every field is zero but its type.
pub open spec fn blank(type_: i32) -> FlatModel {
    FlatModel {
        type_,
        session_id: 0,
        msg_id: 0,
        client_msg_id: 0,
        from: 0,
        to: 0,
        data: Seq::empty(),
    }
}

/// The shape of an event. A batch has none: see [`expanded`].
pub open spec fn flat(event: EventModel) -> FlatModel {
    match event {
        EventModel::Connected { session_id } => FlatModel { session_id, ..blank(EVENT_CONNECTED) },
        EventModel::Disconnected => blank(EVENT_DISCONNECTED),
        EventModel::Message(msg) => FlatModel {
            type_: EVENT_MESSAGE,
            session_id: 0,
            msg_id: msg.msg_id,
            client_msg_id: msg.client_msg_id,
            from: msg.from,
            to: msg.to,
            data: msg.content,
        },
        EventModel::MessageQueued { client_msg_id, to, content } => FlatModel {
            client_msg_id,
            to,
            data: content,
            ..blank(EVENT_MESSAGE_QUEUED)
        },
        EventModel::Ack { msg_id, client_msg_id } => FlatModel {
            msg_id,
            client_msg_id,
            ..blank(EVENT_ACK)
        },
        EventModel::Rejected { reason } => FlatModel {
            data: encode_utf8(reason),
            ..blank(EVENT_REJECTED)
        },
        EventModel::SendFailed { client_msg_id } => FlatModel {
            client_msg_id,
            ..blank(EVENT_SEND_FAILED)
        },
        EventModel::SyncBatch(_) => blank(EVENT_MESSAGE),
    }
}

/// The events that one stands for: a batch stands for its messages, in their
/// order, any other for itself.
pub open spec fn expanded(event: EventModel) -> Seq<EventModel> {
    match event {
        EventModel::SyncBatch(batch) => batch.map_values(|m: MsgModel| EventModel::Message(m)),
        _ => seq![event],
    }
}

/// What the events of a queue say.
pub open spec fn event_views(s: Seq<ClientEvent>) -> Seq<EventModel> {
    s.map_values(|e: ClientEvent| e@)
}

/// The events that one stands for, one at a time.
#[must_use]
pub fn normalize(event: ClientEvent) -> (r: VecDeque<ClientEvent>)
    ensures
        event_views(r@) == expanded(event@),
{
    let mut out: VecDeque<ClientEvent> = VecDeque::new();
    match event {
        ClientEvent::SyncBatch(messages) => {
            let ghost all = messages@;
            let mut rest = messages;
            while rest.len() > 0
                invariant
                    rest@.len() + out@.len() == all.len(),
                    rest@ =~= all.take(rest@.len() as int),
                    forall|k: int|
                        0 <= k < out@.len() ==> (#[trigger] out@[k])@ == EventModel::Message(
                            all[rest@.len() + k]@,
                        ),
                decreases rest@.len(),
            {
                let ghost n = rest@.len() as int;
                if let Some(msg) = rest.pop() {
                    assert(msg == all[n - 1]);
                    out.push_front(ClientEvent::Message(msg));
                }
            }
            assert(event_views(out@) =~= expanded(EventModel::SyncBatch(msg_views(all))));
        },
        other => {
            out.push_back(other);
            assert(event_views(out@) =~= expanded(other@));
        },
    }
    out
}

/// An event in the shape that other languages see. Batches go through
/// [`normalize`] first.
#[must_use]
pub fn alloc_event(event: ClientEvent) -> (r: ImSdkEvent)
    requires
        !(event is SyncBatch),
    ensures
        r@ == flat(event@),
{
    let none: Vec<u8> = Vec::new();
    match event {
        ClientEvent::Connected { session_id } => ImSdkEvent {
            type_: EVENT_CONNECTED,
            session_id,
            msg_id: 0,
            client_msg_id: 0,
            from: 0,
            to: 0,
            data: none,
        },
        ClientEvent::Disconnected => ImSdkEvent {
            type_: EVENT_DISCONNECTED,
            session_id: 0,
            msg_id: 0,
            client_msg_id: 0,
            from: 0,
            to: 0,
            data: none,
        },
        ClientEvent::Message(Msg { from, to, msg_id, client_msg_id, content }) => ImSdkEvent {
            type_: EVENT_MESSAGE,
            session_id: 0,
            msg_id,
            client_msg_id,
            from,
            to,
            data: content_bytes(&content),
        },
        ClientEvent::MessageQueued { client_msg_id, to, content } => ImSdkEvent {
            type_: EVENT_MESSAGE_QUEUED,
            session_id: 0,
            msg_id: 0,
            client_msg_id,
            from: 0,
            to,
            data: content_bytes(&content),
        },
        ClientEvent::Ack { msg_id, client_msg_id } => ImSdkEvent {
            type_: EVENT_ACK,
            session_id: 0,
            msg_id,
            client_msg_id,
            from: 0,
            to: 0,
            data: none,
        },
        ClientEvent::Rejected { reason } => {
            let bytes = reason.as_str().as_bytes();
            let data = copy_range(bytes, 0, bytes.len());
            assert(data@ =~= encode_utf8(reason@));
            ImSdkEvent {
                type_: EVENT_REJECTED,
                session_id: 0,
                msg_id: 0,
                client_msg_id: 0,
                from: 0,
                to: 0,
                data,
            }
        },
        ClientEvent::SendFailed { client_msg_id } => ImSdkEvent {
            type_: EVENT_SEND_FAILED,
            session_id: 0,
            msg_id: 0,
            client_msg_id,
            from: 0,
            to: 0,
            data: none,
        },
        ClientEvent::SyncBatch(_) => vstd::pervasive::unreached(),
    }
}

/// A copy of a content.
fn content_bytes(content: &Bytes) -> (r: Vec<u8>)
    ensures
        r@ == bytes_content(*content),
{
    let slice = bytes_as_slice(content);
    let r = copy_range(slice, 0, slice.len());
    assert(r@ =~= bytes_content(*content));
    r
}

/// What came of waiting for an event.
#[derive(Debug)]
pub enum Received {
    /// An event came.
    Event(ClientEvent),
    /// None came in time.
    TimedOut,
    /// None will come.
    Closed,
}

/// The events that were received and not handed out.
#[derive(Debug)]
pub struct EventQueue {
    pending: VecDeque<ClientEvent>,
    callback: bool,
}

/// What an [`EventQueue`] holds.
#[verifier::ext_equal]
pub struct QueueModel {
    /// The events, the next one first.
    pub pending: Seq<EventModel>,
    /// Whether the events go to a callback.
    pub callback: bool,
}

impl View for EventQueue {
    type V = QueueModel;

    closed spec fn view(&self) -> QueueModel {
        QueueModel { pending: event_views(self.pending@), callback: self.callback }
    }
}

/// No event of the queue is a batch.
pub open spec fn no_batch(s: Seq<EventModel>) -> bool {
    forall|i: int| 0 <= i < s.len() ==> !(#[trigger] s[i] is SyncBatch)
}

/// An expanded event holds no batch.
pub proof fn law_expanded_has_no_batch(event: EventModel)
    ensures
        no_batch(expanded(event)),
{
}

/// Other languages can tell events apart: two events that are no batches have the
/// same shape only if they are the same.
pub proof fn law_events_are_told_apart(a: EventModel, b: EventModel)
    requires
        !(a is SyncBatch),
        !(b is SyncBatch),
        flat(a) == flat(b),
    ensures
        a == b,
{
    match (a, b) {
        (EventModel::Rejected { reason: x }, EventModel::Rejected { reason: y }) => {
            vstd::utf8::encode_utf8_decode_utf8(x);
            vstd::utf8::encode_utf8_decode_utf8(y);
        },
        (EventModel::Message(x), EventModel::Message(y)) => {
            assert(x =~= y);
        },
        _ => {},
    }
}

/// The numbers of the events, and where what they say stands.
pub proof fn law_shape_of_events(
    session_id: u64,
    msg: MsgModel,
    client_msg_id: u64,
    msg_id: u64,
    to: u64,
    content: Seq<u8>,
    reason: Seq<char>,
)
    ensures
        flat(EventModel::Connected { session_id }).type_ == 0,
        flat(EventModel::Connected { session_id }).session_id == session_id,
        flat(EventModel::Disconnected).type_ == 1,
        flat(EventModel::Message(msg)).type_ == 2,
        flat(EventModel::Message(msg)).from == msg.from,
        flat(EventModel::Message(msg)).to == msg.to,
        flat(EventModel::Message(msg)).msg_id == msg.msg_id,
        flat(EventModel::Message(msg)).client_msg_id == msg.client_msg_id,
        flat(EventModel::Message(msg)).data == msg.content,
        flat(EventModel::MessageQueued { client_msg_id, to, content }).type_ == 3,
        flat(EventModel::MessageQueued { client_msg_id, to, content }).client_msg_id
            == client_msg_id,
        flat(EventModel::MessageQueued { client_msg_id, to, content }).to == to,
        flat(EventModel::MessageQueued { client_msg_id, to, content }).data == content,
        flat(EventModel::Ack { msg_id, client_msg_id }).type_ == 4,
        flat(EventModel::Ack { msg_id, client_msg_id }).msg_id == msg_id,
        flat(EventModel::Ack { msg_id, client_msg_id }).client_msg_id == client_msg_id,
        flat(EventModel::Rejected { reason }).type_ == 5,
        flat(EventModel::Rejected { reason }).data == encode_utf8(reason),
        flat(EventModel::SendFailed { client_msg_id }).type_ == 6,
        flat(EventModel::SendFailed { client_msg_id }).client_msg_id == client_msg_id,
{
}

/// A batch is handed out message by message: none is left out, and they come in their
/// order; any other event comes as it is.
pub proof fn law_batch_is_handed_out_whole(event: EventModel, batch: Seq<MsgModel>, i: int)
    ensures
        expanded(EventModel::SyncBatch(batch)).len() == batch.len(),
        0 <= i < batch.len() ==> expanded(EventModel::SyncBatch(batch))[i] == EventModel::Message(
            batch[i],
        ),
        !(event is SyncBatch) ==> expanded(event) == seq![event],
{
}

/// What a caller who asks for an event gets, in the shape that other languages see.
pub open spec fn shape_of(r: Result<Option<ImSdkEvent>, i32>) -> Result<Option<FlatModel>, i32> {
    match r {
        Ok(Some(event)) => Ok(Some(event@)),
        Ok(None) => Ok(None),
        Err(code) => Err(code),
    }
}

/// What a queue hands out when it is asked, and what it holds then.
pub open spec fn asked(q: QueueModel) -> (Result<Option<FlatModel>, i32>, QueueModel) {
    if q.callback {
        (Err(ERR_POLL_WITH_CALLBACK), q)
    } else if q.pending.len() == 0 {
        (Ok(None), q)
    } else {
        (Ok(Some(flat(q.pending[0]))), QueueModel { pending: q.pending.skip(1), ..q })
    }
}

/// What a queue hands out when an event came, and what it holds then.
pub open spec fn reached(q: QueueModel, event: EventModel) -> (
    Result<Option<FlatModel>, i32>,
    QueueModel,
) {
    (
        Ok(Some(flat(expanded(event)[0]))),
        QueueModel { pending: expanded(event).skip(1), ..q },
    )
}

/// What a queue holds after it was asked `n` times.
pub open spec fn asked_times(q: QueueModel, n: nat) -> QueueModel
    decreases n,
{
    if n == 0 {
        q
    } else {
        asked(asked_times(q, (n - 1) as nat)).1
    }
}

proof fn lemma_asked_times(q: QueueModel, n: nat)
    requires
        !q.callback,
        n <= q.pending.len(),
    ensures
        asked_times(q, n) == (QueueModel { pending: q.pending.skip(n as int), ..q }),
    decreases n,
{
    if n == 0 {
        assert(q.pending.skip(0) =~= q.pending);
    } else {
        lemma_asked_times(q, (n - 1) as nat);
        assert(q.pending.skip(n - 1).skip(1) =~= q.pending.skip(n as int));
    }
}

/// A batch that came is handed out message by message, one at each asking and in order,
/// and then nothing more.
pub proof fn law_batch_is_handed_out_in_order(q: QueueModel, batch: Seq<MsgModel>, k: nat)
    requires
        !q.callback,
        batch.len() > 0,
    ensures
        ({
            let (first, after) = reached(q, EventModel::SyncBatch(batch));
            &&& first == Ok::<Option<FlatModel>, i32>(Some(flat(EventModel::Message(batch[0]))))
            &&& 0 < k < batch.len() ==> asked(asked_times(after, (k - 1) as nat)).0 == Ok::<
                Option<FlatModel>,
                i32,
            >(Some(flat(EventModel::Message(batch[k as int]))))
            &&& k == batch.len() ==> asked(asked_times(after, (k - 1) as nat)).0 == Ok::<
                Option<FlatModel>,
                i32,
            >(None)
        }),
{
    let after = reached(q, EventModel::SyncBatch(batch)).1;
    if 0 < k <= batch.len() {
        lemma_asked_times(after, (k - 1) as nat);
    }
}

/// With a callback, asking for events is an error and loses none.
pub proof fn law_callback_has_the_events(q: QueueModel)
    requires
        q.callback,
    ensures
        asked(q) == (Err::<Option<FlatModel>, i32>(4), q),
{
}

impl EventQueue {
    /// Batches are not kept as such.
    pub open spec fn wf(&self) -> bool {
        no_batch(self@.pending)
    }

    /// An empty queue, of a client whose events go to a callback or not.
    #[must_use]
    pub fn new(callback: bool) -> (r: Self)
        ensures
            r.wf(),
            r@ == (QueueModel { pending: Seq::empty(), callback }),
    {
        let r = EventQueue { pending: VecDeque::new(), callback };
        assert(r@.pending =~= Seq::<EventModel>::empty());
        r
    }

    /// The next event that is there already. With a callback, asking is an error.
    pub fn poll_pending(&mut self) -> (r: Result<Option<ImSdkEvent>, i32>)
        requires
            old(self).wf(),
        ensures
            final(self).wf(),
            final(self)@.callback == old(self)@.callback,
            if old(self)@.callback {
                r == Err::<Option<ImSdkEvent>, i32>(ERR_POLL_WITH_CALLBACK) && final(self)@
                    == old(self)@
            } else if old(self)@.pending.len() == 0 {
                r == Ok::<Option<ImSdkEvent>, i32>(None) && final(self)@ == old(self)@
            } else {
                &&& r is Ok && r->Ok_0 is Some
                &&& r->Ok_0->Some_0@ == flat(old(self)@.pending[0])
                &&& final(self)@.pending == old(self)@.pending.skip(1)
            },
            (shape_of(r), final(self)@) == asked(old(self)@),
    {
        if self.callback {
            return Err(ERR_POLL_WITH_CALLBACK);
        }
        match self.pending.pop_front() {
            Some(head) => {
                assert(old(self)@.pending[0] == head@);
                assert(self@.pending =~= old(self)@.pending.skip(1));
                proof {
                    assert forall|i: int| 0 <= i < self@.pending.len() implies !(
                    #[trigger] self@.pending[i] is SyncBatch) by {
                        assert(self@.pending[i] == old(self)@.pending[i + 1]);
                    }
                }
                Ok(Some(alloc_event(head)))
            },
            None => {
                assert(self@ =~= old(self)@);
                Ok(None)
            },
        }
    }

    /// What is handed out after waiting: the first of the events that came, while
    /// the others are kept; nothing if none came in time; an error if none will
    /// come.
    pub fn poll_received(&mut self, received: Received) -> (r: Result<Option<ImSdkEvent>, i32>)
        requires
            old(self).wf(),
            old(self)@.pending.len() == 0,
            received matches Received::Event(event) ==> expanded(event@).len() > 0,
        ensures
            final(self).wf(),
            final(self)@.callback == old(self)@.callback,
            match received {
                Received::Event(event) => {
                    &&& r is Ok && r->Ok_0 is Some
                    &&& r->Ok_0->Some_0@ == flat(expanded(event@)[0])
                    &&& final(self)@.pending == expanded(event@).skip(1)
                },
                Received::TimedOut => r == Ok::<Option<ImSdkEvent>, i32>(None) && final(self)@
                    == old(self)@,
                Received::Closed => r == Err::<Option<ImSdkEvent>, i32>(ERR_STOPPED)
                    && final(self)@ == old(self)@,
            },
            received matches Received::Event(event) ==> (shape_of(r), final(self)@) == reached(
                old(self)@,
                event@,
            ),
    {
        match received {
            Received::TimedOut => Ok(None),
            Received::Closed => Err(ERR_STOPPED),
            Received::Event(event) => {
                let ghost all = expanded(event@);
                proof {
                    law_expanded_has_no_batch(event@);
                }
                self.pending = normalize(event);
                assert(event_views(self.pending@).len() == self.pending@.len());
                match self.pending.pop_front() {
                    Some(head) => {
                        assert(head@ == all[0]);
                        assert(self@.pending =~= all.skip(1));
                        proof {
                            assert forall|i: int| 0 <= i < self@.pending.len() implies !(
                            #[trigger] self@.pending[i] is SyncBatch) by {
                                assert(self@.pending[i] == all[i + 1]);
                            }
                        }
                        Ok(Some(alloc_event(head)))
                    },
                    None => vstd::pervasive::unreached(),
                }
            },
        }
    }
}

/// The set-up of a client of this server and user, with the defaults but for the
/// directory.
#[must_use]
pub fn sdk_config(
    server_addr: &str,
    user_id: u64,
    token: &str,
    data_dir: Option<&str>,
) -> (r: ClientConfig)
    ensures
        r.server_addr@ == server_addr@,
        r.user_id == user_id,
        r.token@ == token@,
        match data_dir {
            Some(dir) => r.data_dir is Some && r.data_dir->Some_0@ == dir@,
            None => r.data_dir is None,
        },
        r.defaults(),
{
    let mut config = ClientConfig::new(server_addr, user_id, token);
    config.data_dir = match data_dir {
        Some(dir) => Some(dir.to_owned()),
        None => None,
    };
    config
}

} // verus!
