//! The conversations, as the events of the client leave them: the state is a
//! function of the events and nothing else.

use std::collections::BTreeMap;
use bytes::Bytes;
use vstd::prelude::*;
use vstd::std_specs::cmp::OrdSpec;
use vstd::std_specs::iter::IteratorSpec;
use crate::client::event::{ClientEvent, EventModel};
use crate::client::message::{Msg, MsgModel};
use crate::client::outbox::msg_views;
use crate::octets::bytes_content;

verus! {

broadcast use {vstd::std_specs::btree::group_btree_axioms, vstd::laws_cmp::group_laws_cmp};

/// How far a message has come.
#[derive(Debug, Clone, Copy, PartialEq, Eq, Structural)]
pub enum SendStatus {
    /// On its way, and not confirmed.
    Sending,
    /// Confirmed; a message that arrived always is.
    Delivered,
    /// Given up.
    Failed,
}

/// A message of a conversation.
#[derive(Debug, Clone, PartialEq, Eq)]
pub struct ChatMsg {
    /// Whether the user wrote it.
    pub from_me: bool,
    /// The other side.
    pub peer: u64,
    /// What it says.
    pub content: Bytes,
    /// The sender's number.
    pub client_msg_id: u64,
    /// The server's number, if it is known.
    pub msg_id: Option<u64>,
    /// How far it has come.
    pub status: SendStatus,
}

/// What a [`ChatMsg`] says.
#[verifier::ext_equal]
pub struct ChatMsgModel {
    pub from_me: bool,
    pub peer: u64,
    pub content: Seq<u8>,
    pub client_msg_id: u64,
    pub msg_id: Option<u64>,
    pub status: SendStatus,
}

impl View for ChatMsg {
    type V = ChatMsgModel;

    open spec fn view(&self) -> ChatMsgModel {
        ChatMsgModel {
            from_me: self.from_me,
            peer: self.peer,
            content: bytes_content(self.content),
            client_msg_id: self.client_msg_id,
            msg_id: self.msg_id,
            status: self.status,
        }
    }
}

/// The messages with one other side, in the order of their arrival.
#[derive(Debug)]
pub struct Conversation {
    /// The messages.
    pub messages: Vec<ChatMsg>,
    /// How many have not been read.
    pub unread: u32,
}

/// What a [`Conversation`] holds.
#[verifier::ext_equal]
pub struct ConversationModel {
    pub messages: Seq<ChatMsgModel>,
    pub unread: u32,
}

impl View for Conversation {
    type V = ConversationModel;

    open spec fn view(&self) -> ConversationModel {
        ConversationModel {
            messages: self.messages@.map_values(|m: ChatMsg| m@),
            unread: self.unread,
        }
    }
}

/// The conversation in which nothing was said.
pub open spec fn silence() -> ConversationModel {
    ConversationModel { messages: Seq::empty(), unread: 0 }
}

impl Default for Conversation {
    fn default() -> (r: Self)
        ensures
            r@ == silence(),
    {
        let r = Conversation { messages: Vec::new(), unread: 0 };
        assert(r@.messages =~= Seq::<ChatMsgModel>::empty());
        r
    }
}

/// The conversations of a user.
#[derive(Debug)]
pub struct ChatState {
    conversations: BTreeMap<u64, Conversation>,
    connected: bool,
}

/// What a [`ChatState`] holds.
#[verifier::ext_equal]
pub struct ChatModel {
    /// The conversations by their other side.
    pub conversations: Map<u64, ConversationModel>,
    /// Whether the client is connected.
    pub connected: bool,
}

/// What the conversations of a map hold.
pub open spec fn conversation_views(m: Map<u64, Conversation>) -> Map<u64, ConversationModel> {
    Map::new(|p: u64| m.contains_key(p), |p: u64| m[p]@)
}

impl View for ChatState {
    type V = ChatModel;

    closed spec fn view(&self) -> ChatModel {
        ChatModel {
            conversations: conversation_views(self.conversations@),
            connected: self.connected,
        }
    }
}

// ---------------------------------------------------------------------------
// What events do
// ---------------------------------------------------------------------------

/// The conversation with `peer`, begun if there was none.
pub open spec fn entry_of(m: Map<u64, ConversationModel>, peer: u64) -> ConversationModel {
    if m.contains_key(peer) {
        m[peer]
    } else {
        silence()
    }
}

/// The conversation holds a message of the other side with this number.
pub open spec fn has_incoming(c: ConversationModel, client_msg_id: u64) -> bool {
    exists|i: int|
        0 <= i < c.messages.len() && !(#[trigger] c.messages[i]).from_me
            && c.messages[i].client_msg_id == client_msg_id
}

/// The conversation after a message of the other side: one that it holds already
/// changes nothing.
pub open spec fn with_incoming(c: ConversationModel, msg: MsgModel) -> ConversationModel {
    if has_incoming(c, msg.client_msg_id) {
        c
    } else {
        ConversationModel {
            messages: c.messages.push(
                ChatMsgModel {
                    from_me: false,
                    peer: msg.from,
                    content: msg.content,
                    client_msg_id: msg.client_msg_id,
                    msg_id: Some(msg.msg_id),
                    status: SendStatus::Delivered,
                },
            ),
            unread: (c.unread + 1) as u32,
        }
    }
}

/// The conversations after a message arrived.
pub open spec fn after_incoming(m: Map<u64, ConversationModel>, msg: MsgModel) -> Map<
    u64,
    ConversationModel,
> {
    m.insert(msg.from, with_incoming(entry_of(m, msg.from), msg))
}

/// The conversations after messages arrived.
pub open spec fn after_batch(m: Map<u64, ConversationModel>, batch: Seq<MsgModel>) -> Map<
    u64,
    ConversationModel,
>
    decreases batch.len(),
{
    if batch.len() == 0 {
        m
    } else {
        after_incoming(after_batch(m, batch.drop_last()), batch.last())
    }
}

/// The conversations after a message went out.
pub open spec fn after_queued(
    m: Map<u64, ConversationModel>,
    client_msg_id: u64,
    to: u64,
    content: Seq<u8>,
) -> Map<u64, ConversationModel> {
    let c = entry_of(m, to);
    m.insert(
        to,
        ConversationModel {
            messages: c.messages.push(
                ChatMsgModel {
                    from_me: true,
                    peer: to,
                    content,
                    client_msg_id,
                    msg_id: None,
                    status: SendStatus::Sending,
                },
            ),
            ..c
        },
    )
}

/// How the wait for a confirmation ended.
#[derive(Debug, Clone, Copy, PartialEq, Eq, Structural)]
pub enum Verdict {
    /// With the server's number.
    Delivered(u64),
    /// Without one.
    Failed,
}

/// The message after the wait for its confirmation ended.
pub open spec fn settled(m: ChatMsgModel, verdict: Verdict) -> ChatMsgModel {
    match verdict {
        Verdict::Delivered(msg_id) => ChatMsgModel {
            msg_id: Some(msg_id),
            status: SendStatus::Delivered,
            ..m
        },
        Verdict::Failed => ChatMsgModel { status: SendStatus::Failed, ..m },
    }
}

/// Where the last message of the user's with this number stands; below zero if
/// there is none.
pub open spec fn last_own(s: Seq<ChatMsgModel>, client_msg_id: u64) -> int
    decreases s.len(),
{
    if s.len() == 0 {
        -1
    } else if s.last().from_me && s.last().client_msg_id == client_msg_id {
        s.len() - 1
    } else {
        last_own(s.drop_last(), client_msg_id)
    }
}

/// `peer` is the first in whose conversation a message of the user's has this
/// number.
pub open spec fn first_holder(
    m: Map<u64, ConversationModel>,
    client_msg_id: u64,
    peer: u64,
) -> bool {
    &&& m.contains_key(peer)
    &&& last_own(m[peer].messages, client_msg_id) >= 0
    &&& forall|q: u64|
        q < peer && #[trigger] m.contains_key(q) ==> last_own(m[q].messages, client_msg_id) < 0
}

/// The conversations after the wait for a confirmation ended.
pub open spec fn after_verdict(
    m: Map<u64, ConversationModel>,
    client_msg_id: u64,
    verdict: Verdict,
) -> Map<u64, ConversationModel> {
    if exists|p: u64| first_holder(m, client_msg_id, p) {
        let p = choose|p: u64| first_holder(m, client_msg_id, p);
        let c = m[p];
        let i = last_own(c.messages, client_msg_id);
        m.insert(
            p,
            ConversationModel {
                messages: c.messages.update(i, settled(c.messages[i], verdict)),
                ..c
            },
        )
    } else {
        m
    }
}

/// The state after an event.
pub open spec fn after_event(s: ChatModel, event: EventModel) -> ChatModel {
    match event {
        EventModel::Connected { .. } => ChatModel { connected: true, ..s },
        EventModel::Disconnected => ChatModel { connected: false, ..s },
        EventModel::Rejected { .. } => ChatModel { connected: false, ..s },
        EventModel::MessageQueued { client_msg_id, to, content } => ChatModel {
            conversations: after_queued(s.conversations, client_msg_id, to, content),
            ..s
        },
        EventModel::Message(msg) => ChatModel {
            conversations: after_incoming(s.conversations, msg),
            ..s
        },
        EventModel::SyncBatch(batch) => ChatModel {
            conversations: after_batch(s.conversations, batch),
            ..s
        },
        EventModel::Ack { msg_id, client_msg_id } => ChatModel {
            conversations: after_verdict(
                s.conversations,
                client_msg_id,
                Verdict::Delivered(msg_id),
            ),
            ..s
        },
        EventModel::SendFailed { client_msg_id } => ChatModel {
            conversations: after_verdict(s.conversations, client_msg_id, Verdict::Failed),
            ..s
        },
    }
}

/// A message that arrives is known, or its conversation can count one more that was
/// not read.
pub open spec fn has_room(m: Map<u64, ConversationModel>, msg: MsgModel) -> bool {
    let c = entry_of(m, msg.from);
    has_incoming(c, msg.client_msg_id) || c.unread < u32::MAX
}

/// What arrives with an event can be counted.
pub open spec fn can_count(m: Map<u64, ConversationModel>, event: EventModel) -> bool {
    match event {
        EventModel::Message(msg) => has_room(m, msg),
        EventModel::SyncBatch(batch) => can_count_batch(m, batch),
        _ => true,
    }
}

/// Messages that arrive one after the other can be counted.
pub open spec fn can_count_batch(m: Map<u64, ConversationModel>, batch: Seq<MsgModel>) -> bool {
    forall|i: int|
        0 <= i < batch.len() ==> has_room(after_batch(m, #[trigger] batch.take(i)), batch[i])
}

// ---------------------------------------------------------------------------
// Laws
// ---------------------------------------------------------------------------

/// The conversations hold the message.
pub open spec fn knows(m: Map<u64, ConversationModel>, msg: MsgModel) -> bool {
    m.contains_key(msg.from) && has_incoming(m[msg.from], msg.client_msg_id)
}

proof fn lemma_arrived_is_known(m: Map<u64, ConversationModel>, msg: MsgModel)
    ensures
        knows(after_incoming(m, msg), msg),
        forall|other: MsgModel| #[trigger] knows(m, other) ==> knows(after_incoming(m, msg), other),
{
    let c = entry_of(m, msg.from);
    let d = with_incoming(c, msg);
    if !has_incoming(c, msg.client_msg_id) {
        assert(!d.messages.last().from_me);
        assert(d.messages[c.messages.len() as int] == d.messages.last());
    }
    assert forall|other: MsgModel| #[trigger] knows(m, other) implies knows(
        after_incoming(m, msg),
        other,
    ) by {
        if other.from == msg.from {
            let i = choose|i: int|
                0 <= i < c.messages.len() && !(#[trigger] c.messages[i]).from_me
                    && c.messages[i].client_msg_id == other.client_msg_id;
            assert(d.messages[i] == c.messages[i]);
        }
    }
}

proof fn lemma_known_changes_nothing(m: Map<u64, ConversationModel>, msg: MsgModel)
    requires
        knows(m, msg),
    ensures
        after_incoming(m, msg) == m,
{
    assert(after_incoming(m, msg) =~= m);
}

proof fn lemma_batch_is_known(m: Map<u64, ConversationModel>, batch: Seq<MsgModel>)
    ensures
        forall|i: int| 0 <= i < batch.len() ==> knows(after_batch(m, batch), #[trigger] batch[i]),
    decreases batch.len(),
{
    if batch.len() > 0 {
        let t = batch.drop_last();
        lemma_batch_is_known(m, t);
        lemma_arrived_is_known(after_batch(m, t), batch.last());
        assert forall|i: int| 0 <= i < batch.len() implies knows(
            after_batch(m, batch),
            #[trigger] batch[i],
        ) by {
            if i < t.len() {
                assert(t[i] == batch[i]);
            }
        }
    }
}

proof fn lemma_known_batch_changes_nothing(m: Map<u64, ConversationModel>, batch: Seq<MsgModel>)
    requires
        forall|i: int| 0 <= i < batch.len() ==> knows(m, #[trigger] batch[i]),
    ensures
        after_batch(m, batch) == m,
    decreases batch.len(),
{
    if batch.len() > 0 {
        let t = batch.drop_last();
        assert forall|i: int| 0 <= i < t.len() implies knows(m, #[trigger] t[i]) by {
            assert(t[i] == batch[i]);
        }
        lemma_known_batch_changes_nothing(m, t);
        assert(knows(m, batch[batch.len() - 1]));
        lemma_known_changes_nothing(m, batch.last());
    }
}

proof fn lemma_last_own(s: Seq<ChatMsgModel>, client_msg_id: u64)
    ensures
        -1 <= last_own(s, client_msg_id) < s.len(),
        last_own(s, client_msg_id) >= 0 ==> s[last_own(s, client_msg_id)].from_me && s[last_own(
            s,
            client_msg_id,
        )].client_msg_id == client_msg_id,
        forall|i: int|
            last_own(s, client_msg_id) < i < s.len() ==> !((#[trigger] s[i]).from_me
                && s[i].client_msg_id == client_msg_id),
    decreases s.len(),
{
    if s.len() > 0 && !(s.last().from_me && s.last().client_msg_id == client_msg_id) {
        let t = s.drop_last();
        lemma_last_own(t, client_msg_id);
        let i = last_own(t, client_msg_id);
        assert(i >= 0 ==> t[i] == s[i]);
        assert forall|j: int| i < j < s.len() implies !((#[trigger] s[j]).from_me
            && s[j].client_msg_id == client_msg_id) by {
            if j < t.len() {
                assert(t[j] == s[j]);
            }
        }
    }
}

proof fn lemma_last_own_is(s: Seq<ChatMsgModel>, client_msg_id: u64, i: int)
    requires
        -1 <= i < s.len(),
        i >= 0 ==> s[i].from_me && s[i].client_msg_id == client_msg_id,
        forall|j: int|
            i < j < s.len() ==> !((#[trigger] s[j]).from_me && s[j].client_msg_id
                == client_msg_id),
    ensures
        last_own(s, client_msg_id) == i,
{
    lemma_last_own(s, client_msg_id);
    let k = last_own(s, client_msg_id);
    if k > i {
        assert(!(s[k].from_me && s[k].client_msg_id == client_msg_id));
    }
    if k < i {
        assert(!(s[i].from_me && s[i].client_msg_id == client_msg_id));
    }
}

proof fn lemma_first_holder_unique(
    m: Map<u64, ConversationModel>,
    client_msg_id: u64,
    p: u64,
    q: u64,
)
    requires
        first_holder(m, client_msg_id, p),
        first_holder(m, client_msg_id, q),
    ensures
        p == q,
{
}

/// A message that arrives is told once: one that its conversation holds already
/// changes nothing; any other is added behind the rest, delivered and not read, and
/// changes nothing else.
pub proof fn law_arrival_is_told_once(s: ChatModel, msg: MsgModel)
    requires
        has_room(s.conversations, msg),
    ensures
        ({
            let before = entry_of(s.conversations, msg.from);
            let t = after_event(s, EventModel::Message(msg));
            let after = entry_of(t.conversations, msg.from);
            &&& t.connected == s.connected
            &&& forall|peer: u64|
                peer != msg.from ==> #[trigger] t.conversations.contains_key(peer)
                    == s.conversations.contains_key(peer) && (s.conversations.contains_key(peer)
                    ==> t.conversations[peer] == s.conversations[peer])
            &&& has_incoming(before, msg.client_msg_id) ==> t == s
            &&& !has_incoming(before, msg.client_msg_id) ==> {
                &&& after.unread == before.unread + 1
                &&& after.messages == before.messages.push(
                    ChatMsgModel {
                        from_me: false,
                        peer: msg.from,
                        content: msg.content,
                        client_msg_id: msg.client_msg_id,
                        msg_id: Some(msg.msg_id),
                        status: SendStatus::Delivered,
                    },
                )
            }
        }),
{
    let before = entry_of(s.conversations, msg.from);
    if has_incoming(before, msg.client_msg_id) {
        assert(s.conversations.contains_key(msg.from));
        lemma_known_changes_nothing(s.conversations, msg);
    }
}

/// Messages that arrive together are told as if each arrived by itself, in order.
pub proof fn law_batch_is_its_messages(s: ChatModel, batch: Seq<MsgModel>, msg: MsgModel)
    ensures
        after_event(s, EventModel::SyncBatch(Seq::empty())) == s,
        after_event(s, EventModel::SyncBatch(batch.push(msg))) == after_event(
            after_event(s, EventModel::SyncBatch(batch)),
            EventModel::Message(msg),
        ),
{
    assert(batch.push(msg).drop_last() =~= batch);
}

/// An event about messages that arrived, or about the end of a wait, changes
/// nothing when it comes twice.
pub proof fn law_replay_is_harmless(s: ChatModel, event: EventModel)
    requires
        !(event is MessageQueued),
    ensures
        after_event(after_event(s, event), event) == after_event(s, event),
{
    let m = s.conversations;
    match event {
        EventModel::Message(msg) => {
            lemma_arrived_is_known(m, msg);
            lemma_known_changes_nothing(after_incoming(m, msg), msg);
        },
        EventModel::SyncBatch(batch) => {
            lemma_batch_is_known(m, batch);
            lemma_known_batch_changes_nothing(after_batch(m, batch), batch);
        },
        EventModel::Ack { msg_id, client_msg_id } => {
            lemma_verdict_twice(m, client_msg_id, Verdict::Delivered(msg_id));
        },
        EventModel::SendFailed { client_msg_id } => {
            lemma_verdict_twice(m, client_msg_id, Verdict::Failed);
        },
        _ => {},
    }
}

proof fn lemma_verdict_twice(m: Map<u64, ConversationModel>, client_msg_id: u64, verdict: Verdict)
    ensures
        after_verdict(after_verdict(m, client_msg_id, verdict), client_msg_id, verdict)
            == after_verdict(m, client_msg_id, verdict),
{
    if exists|p: u64| first_holder(m, client_msg_id, p) {
        let p = choose|p: u64| first_holder(m, client_msg_id, p);
        let c = m[p];
        let i = last_own(c.messages, client_msg_id);
        lemma_last_own(c.messages, client_msg_id);
        let n = after_verdict(m, client_msg_id, verdict);
        let d = n[p];
        lemma_last_own_is(d.messages, client_msg_id, i);
        assert(first_holder(n, client_msg_id, p)) by {
            assert forall|q: u64| q < p && #[trigger] n.contains_key(q) implies last_own(
                n[q].messages,
                client_msg_id,
            ) < 0 by {
                assert(m.contains_key(q));
            }
        }
        let q = choose|q: u64| first_holder(n, client_msg_id, q);
        lemma_first_holder_unique(n, client_msg_id, p, q);
        assert(d.messages.update(i, settled(d.messages[i], verdict)) =~= d.messages);
        assert(after_verdict(n, client_msg_id, verdict) =~= n);
    }
}

/// A message whose number no other message of the user's has waits until it is
/// confirmed: with the confirmation it is delivered under the server's number,
/// and no other message changes.
pub proof fn law_confirmed_is_delivered(
    s: ChatModel,
    client_msg_id: u64,
    to: u64,
    content: Seq<u8>,
    msg_id: u64,
)
    requires
        forall|p: u64| #[trigger]
            s.conversations.contains_key(p) ==> last_own(
                s.conversations[p].messages,
                client_msg_id,
            ) < 0,
    ensures
        ({
            let queued = after_event(s, EventModel::MessageQueued { client_msg_id, to, content });
            let acked = after_event(queued, EventModel::Ack { msg_id, client_msg_id });
            let before = entry_of(s.conversations, to).messages;
            acked.conversations == s.conversations.insert(
                to,
                ConversationModel {
                    messages: before.push(
                        ChatMsgModel {
                            from_me: true,
                            peer: to,
                            content,
                            client_msg_id,
                            msg_id: Some(msg_id),
                            status: SendStatus::Delivered,
                        },
                    ),
                    ..entry_of(s.conversations, to)
                },
            )
        }),
{
    let m = s.conversations;
    let n = after_queued(m, client_msg_id, to, content);
    let c = n[to];
    assert(c.messages.last().from_me && c.messages.last().client_msg_id == client_msg_id);
    assert(first_holder(n, client_msg_id, to)) by {
        assert forall|q: u64| q < to && #[trigger] n.contains_key(q) implies last_own(
            n[q].messages,
            client_msg_id,
        ) < 0 by {
            assert(m.contains_key(q));
        }
    }
    let q = choose|q: u64| first_holder(n, client_msg_id, q);
    lemma_first_holder_unique(n, client_msg_id, to, q);
    let i = last_own(c.messages, client_msg_id);
    let before = entry_of(m, to).messages;
    let last = settled(c.messages[i], Verdict::Delivered(msg_id));
    assert(c.messages.update(i, last) =~= before.push(last));
    assert(after_verdict(n, client_msg_id, Verdict::Delivered(msg_id)) =~= m.insert(
        to,
        ConversationModel { messages: before.push(last), ..entry_of(m, to) },
    ));
}

/// The message at place `i` of the conversation with `p` is the user's only one with
/// this number.
pub open spec fn only_own(
    m: Map<u64, ConversationModel>,
    client_msg_id: u64,
    p: u64,
    i: int,
) -> bool {
    &&& m.contains_key(p)
    &&& 0 <= i < m[p].messages.len()
    &&& m[p].messages[i].from_me
    &&& m[p].messages[i].client_msg_id == client_msg_id
    &&& forall|q: u64, j: int|
        m.contains_key(q) && 0 <= j < m[q].messages.len() && #[trigger] m[q].messages[j].from_me
            && m[q].messages[j].client_msg_id == client_msg_id ==> q == p && j == i
}

/// The end of the wait for a confirmation is shown at the message that waited,
/// wherever it stands: a confirmed one is delivered under the server's number, one
/// that was given up has failed. No other message changes, and nothing is read or
/// unread by it.
pub proof fn law_verdict_is_shown_at_its_message(
    s: ChatModel,
    client_msg_id: u64,
    msg_id: u64,
    p: u64,
    i: int,
)
    requires
        only_own(s.conversations, client_msg_id, p, i),
    ensures
        ({
            let c = s.conversations[p];
            let acked = after_event(s, EventModel::Ack { msg_id, client_msg_id });
            let failed = after_event(s, EventModel::SendFailed { client_msg_id });
            &&& acked.connected == s.connected && failed.connected == s.connected
            &&& acked.conversations == s.conversations.insert(
                p,
                ConversationModel {
                    messages: c.messages.update(
                        i,
                        ChatMsgModel {
                            msg_id: Some(msg_id),
                            status: SendStatus::Delivered,
                            ..c.messages[i]
                        },
                    ),
                    unread: c.unread,
                },
            )
            &&& failed.conversations == s.conversations.insert(
                p,
                ConversationModel {
                    messages: c.messages.update(
                        i,
                        ChatMsgModel { status: SendStatus::Failed, ..c.messages[i] },
                    ),
                    unread: c.unread,
                },
            )
        }),
{
    let m = s.conversations;
    let c = m[p];
    lemma_last_own(c.messages, client_msg_id);
    let k = last_own(c.messages, client_msg_id);
    assert(m[p].messages[i].from_me);
    if k < i {
        assert(!(c.messages[i].from_me && c.messages[i].client_msg_id == client_msg_id));
    } else {
        assert(m[p].messages[k].from_me);
    }
    assert(first_holder(m, client_msg_id, p)) by {
        assert forall|q: u64| q < p && #[trigger] m.contains_key(q) implies last_own(
            m[q].messages,
            client_msg_id,
        ) < 0 by {
            lemma_last_own(m[q].messages, client_msg_id);
            let j = last_own(m[q].messages, client_msg_id);
            if j >= 0 {
                assert(m[q].messages[j].from_me);
            }
        }
    }
    let q = choose|q: u64| first_holder(m, client_msg_id, q);
    lemma_first_holder_unique(m, client_msg_id, p, q);
}

/// The end of a wait for a message that no conversation holds changes nothing.
pub proof fn law_verdict_without_message(s: ChatModel, client_msg_id: u64, msg_id: u64)
    requires
        forall|q: u64, j: int|
            s.conversations.contains_key(q) && 0 <= j < s.conversations[q].messages.len()
                && #[trigger] s.conversations[q].messages[j].from_me
                ==> s.conversations[q].messages[j].client_msg_id != client_msg_id,
    ensures
        after_event(s, EventModel::Ack { msg_id, client_msg_id }) == s,
        after_event(s, EventModel::SendFailed { client_msg_id }) == s,
{
    let m = s.conversations;
    assert forall|p: u64| !first_holder(m, client_msg_id, p) by {
        if first_holder(m, client_msg_id, p) {
            lemma_last_own(m[p].messages, client_msg_id);
            let j = last_own(m[p].messages, client_msg_id);
            assert(m[p].messages[j].from_me);
        }
    }
}

/// A message that goes out is added behind the rest of its conversation, on its way;
/// it is not counted as unread, and no other conversation changes.
pub proof fn law_queued_is_added(s: ChatModel, client_msg_id: u64, to: u64, content: Seq<u8>)
    ensures
        ({
            let before = entry_of(s.conversations, to);
            let t = after_event(s, EventModel::MessageQueued { client_msg_id, to, content });
            &&& t.connected == s.connected
            &&& t.conversations.contains_key(to)
            &&& t.conversations[to].unread == before.unread
            &&& t.conversations[to].messages == before.messages.push(
                ChatMsgModel {
                    from_me: true,
                    peer: to,
                    content,
                    client_msg_id,
                    msg_id: None,
                    status: SendStatus::Sending,
                },
            )
            &&& forall|peer: u64|
                peer != to ==> #[trigger] t.conversations.contains_key(peer)
                    == s.conversations.contains_key(peer) && (s.conversations.contains_key(peer)
                    ==> t.conversations[peer] == s.conversations[peer])
        }),
{
}

/// The client is connected from an accepted login on until the connection is gone or
/// a login is refused; nothing else changes that, and it changes nothing else.
pub proof fn law_connection_is_shown(s: ChatModel, event: EventModel)
    ensures
        ({
            let t = after_event(s, event);
            &&& event is Connected ==> t.connected
            &&& event is Disconnected || event is Rejected ==> !t.connected
            &&& !(event is Connected || event is Disconnected || event is Rejected) ==> t.connected
                == s.connected
            &&& event is Connected || event is Disconnected || event is Rejected
                ==> t.conversations == s.conversations
        }),
{
}

// ---------------------------------------------------------------------------
// The state
// ---------------------------------------------------------------------------

spec fn precedes<K: Ord>(a: K, b: K) -> bool {
    a.cmp_spec(&b) is Less
}

/// The message after the wait for its confirmation ended.
fn settle_msg(m: &ChatMsg, verdict: Verdict) -> (r: ChatMsg)
    ensures
        r@ == settled(m@, verdict),
{
    let (msg_id, status) = match verdict {
        Verdict::Delivered(id) => (Some(id), SendStatus::Delivered),
        Verdict::Failed => (m.msg_id, SendStatus::Failed),
    };
    ChatMsg {
        from_me: m.from_me,
        peer: m.peer,
        content: m.content.clone(),
        client_msg_id: m.client_msg_id,
        msg_id,
        status,
    }
}

impl Default for ChatState {
    fn default() -> (r: Self)
        ensures
            r@ == (ChatModel { conversations: Map::empty(), connected: false }),
    {
        let r = ChatState { conversations: BTreeMap::new(), connected: false };
        assert(r@.conversations =~= Map::<u64, ConversationModel>::empty());
        r
    }
}

impl ChatState {
    /// No conversation, and no connection.
    #[must_use]
    pub fn new() -> (r: Self)
        ensures
            r@ == (ChatModel { conversations: Map::empty(), connected: false }),
    {
        Self::default()
    }

    /// Takes in an event. `self_id` is the user.
    pub fn on_event(&mut self, event: &ClientEvent, self_id: u64)
        requires
            can_count(old(self)@.conversations, event@),
        ensures
            final(self)@ == after_event(old(self)@, event@),
    {
        let _ = self_id;
        match event {
            ClientEvent::Connected { .. } => {
                self.connected = true;
            },
            ClientEvent::Disconnected => {
                self.connected = false;
            },
            ClientEvent::Rejected { .. } => {
                self.connected = false;
            },
            ClientEvent::MessageQueued { client_msg_id, to, content } => {
                let mut c = self.take_entry(*to);
                let ghost before = c@;
                c.messages.push(
                    ChatMsg {
                        from_me: true,
                        peer: *to,
                        content: content.clone(),
                        client_msg_id: *client_msg_id,
                        msg_id: None,
                        status: SendStatus::Sending,
                    },
                );
                assert(c@.messages =~= before.messages.push(c.messages@.last()@));
                self.put_entry(*to, c);
                assert(self@.conversations =~= after_queued(
                    old(self)@.conversations,
                    *client_msg_id,
                    *to,
                    bytes_content(*content),
                ));
            },
            ClientEvent::Message(msg) => {
                self.accept_incoming(msg);
            },
            ClientEvent::SyncBatch(batch) => {
                self.accept_batch(batch);
            },
            ClientEvent::Ack { msg_id, client_msg_id } => {
                self.settle(*client_msg_id, Verdict::Delivered(*msg_id));
            },
            ClientEvent::SendFailed { client_msg_id } => {
                self.settle(*client_msg_id, Verdict::Failed);
            },
        }
    }

    /// The other sides of the conversations, in ascending order.
    #[must_use]
    pub fn peers(&self) -> (r: Vec<u64>)
        ensures
            forall|p: u64| self@.conversations.contains_key(p) <==> #[trigger] r@.contains(p),
            forall|i: int, j: int| 0 <= i < j < r@.len() ==> r@[i] < r@[j],
    {
        let mut out: Vec<u64> = Vec::new();
        for k in it: self.conversations.keys()
            invariant
                out@.len() == it.index(),
                forall|i: int| 0 <= i < out@.len() ==> out@[i] == *it.seq()[i],
        {
            out.push(*k);
        }
        proof {
            let s = self.conversations.keys().remaining();
            assert(out@ =~= s.unref());
            assert(vstd::laws_cmp::obeys_cmp::<u64>());
            assert(vstd::laws_cmp::obeys_cmp::<&u64>());
            assert forall|i: int, j: int| 0 <= i < j < out@.len() implies out@[i] < out@[j] by {
                assert(precedes(s[i], s[j]));
            }
            assert forall|p: u64|
                self@.conversations.contains_key(p) <==> #[trigger] out@.contains(p) by {
                assert(s.unref().to_set().contains(p) <==> self.conversations@.contains_key(p));
            }
        }
        out
    }

    /// The conversation with `peer`, if there is one.
    #[must_use]
    pub fn conversation(&self, peer: u64) -> (r: Option<&Conversation>)
        ensures
            match r {
                Some(c) => self@.conversations.contains_key(peer) && c@
                    == self@.conversations[peer],
                None => !self@.conversations.contains_key(peer),
            },
    {
        self.conversations.get(&peer)
    }

    /// Whether the client is connected.
    #[must_use]
    pub fn is_connected(&self) -> (r: bool)
        ensures
            r == self@.connected,
    {
        self.connected
    }

    /// The messages of a conversation have been read.
    pub fn mark_read(&mut self, peer: u64)
        ensures
            final(self)@ == (if old(self)@.conversations.contains_key(peer) {
                ChatModel {
                    conversations: old(self)@.conversations.insert(
                        peer,
                        ConversationModel { unread: 0, ..old(self)@.conversations[peer] },
                    ),
                    ..old(self)@
                }
            } else {
                old(self)@
            }),
    {
        if let Some(mut c) = self.conversations.remove(&peer) {
            c.unread = 0;
            self.conversations.insert(peer, c);
            assert(self@.conversations =~= old(self)@.conversations.insert(
                peer,
                ConversationModel { unread: 0, ..old(self)@.conversations[peer] },
            ));
        } else {
            assert(self@.conversations =~= old(self)@.conversations);
        }
    }

    /// Takes the conversation with `peer` out, or begins one.
    fn take_entry(&mut self, peer: u64) -> (r: Conversation)
        ensures
            r@ == entry_of(old(self)@.conversations, peer),
            final(self)@.conversations == old(self)@.conversations.remove(peer),
            final(self)@.connected == old(self)@.connected,
    {
        let r = match self.conversations.remove(&peer) {
            Some(c) => c,
            None => Conversation::default(),
        };
        assert(self@.conversations =~= old(self)@.conversations.remove(peer));
        r
    }

    /// Puts the conversation with `peer` back.
    fn put_entry(&mut self, peer: u64, c: Conversation)
        ensures
            final(self)@.conversations == old(self)@.conversations.insert(peer, c@),
            final(self)@.connected == old(self)@.connected,
    {
        self.conversations.insert(peer, c);
        assert(self@.conversations =~= old(self)@.conversations.insert(peer, c@));
    }

    /// Takes in a message that arrived; one that is known changes nothing.
    fn accept_incoming(&mut self, msg: &Msg)
        requires
            has_room(old(self)@.conversations, msg@),
        ensures
            final(self)@ == (ChatModel {
                conversations: after_incoming(old(self)@.conversations, msg@),
                ..old(self)@
            }),
    {
        let mut c = self.take_entry(msg.from);
        let ghost before = c@;
        assert(before == entry_of(old(self)@.conversations, msg.from));
        let mut known: bool = false;
        let mut i: usize = 0;
        while i < c.messages.len()
            invariant
                i <= c.messages@.len(),
                c@ == before,
                known <==> exists|k: int|
                    0 <= k < i && !(#[trigger] before.messages[k]).from_me
                        && before.messages[k].client_msg_id == msg.client_msg_id,
            decreases c.messages@.len() - i,
        {
            let m = &c.messages[i];
            assert(before.messages[i as int] == m@);
            if !m.from_me && m.client_msg_id == msg.client_msg_id {
                known = true;
            }
            i = i + 1;
        }
        if !known {
            c.messages.push(
                ChatMsg {
                    from_me: false,
                    peer: msg.from,
                    content: msg.content.clone(),
                    client_msg_id: msg.client_msg_id,
                    msg_id: Some(msg.msg_id),
                    status: SendStatus::Delivered,
                },
            );
            c.unread = c.unread + 1;
            assert(c@.messages =~= before.messages.push(c.messages@.last()@));
        }
        self.put_entry(msg.from, c);
        assert(self@.conversations =~= after_incoming(old(self)@.conversations, msg@));
    }

    /// Takes in messages that arrived.
    fn accept_batch(&mut self, batch: &Vec<Msg>)
        requires
            can_count_batch(old(self)@.conversations, msg_views(batch@)),
        ensures
            final(self)@ == (ChatModel {
                conversations: after_batch(old(self)@.conversations, msg_views(batch@)),
                ..old(self)@
            }),
    {
        let ghost all = msg_views(batch@);
        let ghost m = self@.conversations;
        let mut i: usize = 0;
        assert(all.take(0) =~= Seq::<MsgModel>::empty());
        while i < batch.len()
            invariant
                i <= batch@.len(),
                all == msg_views(batch@),
                self@ == (ChatModel {
                    conversations: after_batch(m, all.take(i as int)),
                    ..old(self)@
                }),
                m == old(self)@.conversations,
                can_count_batch(m, all),
            decreases batch@.len() - i,
        {
            assert(has_room(after_batch(m, all.take(i as int)), all[i as int]));
            self.accept_incoming(&batch[i]);
            proof {
                assert(all.take(i + 1).drop_last() =~= all.take(i as int));
                assert(all.take(i + 1).last() == batch@[i as int]@);
            }
            i = i + 1;
        }
        assert(all.take(i as int) =~= all);
    }

    /// The wait for the confirmation of a message ended.
    fn settle(&mut self, client_msg_id: u64, verdict: Verdict)
        ensures
            final(self)@ == (ChatModel {
                conversations: after_verdict(old(self)@.conversations, client_msg_id, verdict),
                ..old(self)@
            }),
    {
        let ghost m = self@.conversations;
        let peers = self.peers();
        let mut i: usize = 0;
        while i < peers.len()
            invariant
                i <= peers@.len(),
                self@ == old(self)@,
                m == self@.conversations,
                forall|p: u64| m.contains_key(p) <==> #[trigger] peers@.contains(p),
                forall|a: int, b: int| 0 <= a < b < peers@.len() ==> peers@[a] < peers@[b],
                forall|a: int|
                    0 <= a < i ==> last_own(m[#[trigger] peers@[a]].messages, client_msg_id) < 0,
            decreases peers@.len() - i,
        {
            let peer: u64 = peers[i];
            assert(peers@.contains(peer));
            let mut c = self.take_entry(peer);
            let ghost before = c@;
            assert(before == m[peer]);
            let mut j: usize = c.messages.len();
            while j > 0
                invariant
                    0 <= j <= c.messages@.len(),
                    c@ == before,
                    before == m[peer],
                    forall|k: int|
                        j <= k < before.messages.len() ==> !((
                        #[trigger] before.messages[k]).from_me && before.messages[k].client_msg_id
                            == client_msg_id),
                    self@.conversations == m.remove(peer),
                    self@.connected == old(self)@.connected,
                    m == old(self)@.conversations,
                    m.contains_key(peer),
                    i < peers@.len(),
                    peer == peers@[i as int],
                    forall|p: u64| m.contains_key(p) <==> #[trigger] peers@.contains(p),
                    forall|a: int, b: int| 0 <= a < b < peers@.len() ==> peers@[a] < peers@[b],
                    forall|a: int|
                        0 <= a < i ==> last_own(m[#[trigger] peers@[a]].messages, client_msg_id)
                            < 0,
                decreases j,
            {
                j = j - 1;
                let msg = &c.messages[j];
                assert(before.messages[j as int] == msg@);
                if msg.from_me && msg.client_msg_id == client_msg_id {
                    let done = settle_msg(msg, verdict);
                    c.messages.set(j, done);
                    assert(c@.messages =~= before.messages.update(j as int, done@));
                    self.put_entry(peer, c);
                    proof {
                        lemma_last_own_is(before.messages, client_msg_id, j as int);
                        assert(first_holder(m, client_msg_id, peer)) by {
                            assert forall|q: u64| q < peer && #[trigger] m.contains_key(q) implies
                                last_own(m[q].messages, client_msg_id) < 0 by {
                                assert(peers@.contains(q));
                                let a = choose|a: int| 0 <= a < peers@.len() && peers@[a] == q;
                                if a > i {
                                    assert(peers@[i as int] < peers@[a]);
                                }
                            }
                        }
                        let p = choose|p: u64| first_holder(m, client_msg_id, p);
                        lemma_first_holder_unique(m, client_msg_id, peer, p);
                        assert(self@.conversations =~= after_verdict(m, client_msg_id, verdict));
                    }
                    return ;
                }
            }
            proof {
                lemma_last_own_is(before.messages, client_msg_id, -1);
            }
            self.put_entry(peer, c);
            assert(self@.conversations =~= m);
            i = i + 1;
        }
        proof {
            assert forall|p: u64| !first_holder(m, client_msg_id, p) by {
                if m.contains_key(p) {
                    assert(peers@.contains(p));
                    let a = choose|a: int| 0 <= a < peers@.len() && peers@[a] == p;
                    assert(last_own(m[peers@[a]].messages, client_msg_id) < 0);
                }
            }
        }
    }
}

} // verus!
