//! What the client tells its user.

use bytes::Bytes;
use vstd::prelude::*;
use crate::client::message::{Msg, MsgModel};
use crate::client::outbox::msg_views;
use crate::octets::bytes_content;

verus! {

/// Something that happened.
#[derive(Debug)]
#[allow(inconsistent_fields)]
pub enum ClientEvent {
    /// The server accepted the login.
    Connected {
        /// The session.
        session_id: u64,
    },
    /// The connection is gone; the client connects again by itself.
    Disconnected,
    /// A message arrived.
    Message(Msg),
    /// A message of the user's is on its way, and not confirmed.
    MessageQueued {
        /// The number that it got.
        client_msg_id: u64,
        /// The recipient.
        to: u64,
        /// What it says.
        content: Bytes,
    },
    /// The server confirmed a message of the user's.
    Ack {
        /// The server's number.
        msg_id: u64,
        /// The sender's number.
        client_msg_id: u64,
    },
    /// Messages arrived that were missed.
    SyncBatch(Vec<Msg>),
    /// The server refused the login; the client does not try again.
    Rejected {
        /// Why.
        reason: String,
    },
    /// A message of the user's was given up.
    SendFailed {
        /// The sender's number.
        client_msg_id: u64,
    },
}

/// What a [`ClientEvent`] says.
#[allow(inconsistent_fields)]
pub enum EventModel {
    Connected { session_id: u64 },
    Disconnected,
    Message(MsgModel),
    MessageQueued { client_msg_id: u64, to: u64, content: Seq<u8> },
    Ack { msg_id: u64, client_msg_id: u64 },
    SyncBatch(Seq<MsgModel>),
    Rejected { reason: Seq<char> },
    SendFailed { client_msg_id: u64 },
}

impl View for ClientEvent {
    type V = EventModel;

    open spec fn view(&self) -> EventModel {
        match *self {
            ClientEvent::Connected { session_id } => EventModel::Connected { session_id },
            ClientEvent::Disconnected => EventModel::Disconnected,
            ClientEvent::Message(msg) => EventModel::Message(msg@),
            ClientEvent::MessageQueued { client_msg_id, to, content } => {
                EventModel::MessageQueued { client_msg_id, to, content: bytes_content(content) }
            },
            ClientEvent::Ack { msg_id, client_msg_id } => EventModel::Ack {
                msg_id,
                client_msg_id,
            },
            ClientEvent::SyncBatch(batch) => EventModel::SyncBatch(msg_views(batch@)),
            ClientEvent::Rejected { reason } => EventModel::Rejected { reason: reason@ },
            ClientEvent::SendFailed { client_msg_id } => EventModel::SendFailed { client_msg_id },
        }
    }
}

/// A copy of a batch.
fn copy_batch(batch: &Vec<Msg>) -> (r: Vec<Msg>)
    ensures
        msg_views(r@) == msg_views(batch@),
{
    let mut out: Vec<Msg> = Vec::new();
    let mut i: usize = 0;
    while i < batch.len()
        invariant
            i <= batch@.len(),
            out@.len() == i,
            forall|k: int| 0 <= k < i ==> (#[trigger] out@[k])@ == batch@[k]@,
        decreases batch@.len() - i,
    {
        out.push(batch[i].clone());
        i = i + 1;
    }
    assert(msg_views(out@) =~= msg_views(batch@));
    out
}

impl Clone for ClientEvent {
    fn clone(&self) -> (r: Self)
        ensures
            r@ == self@,
    {
        match self {
            ClientEvent::Connected { session_id } => ClientEvent::Connected {
                session_id: *session_id,
            },
            ClientEvent::Disconnected => ClientEvent::Disconnected,
            ClientEvent::Message(msg) => ClientEvent::Message(msg.clone()),
            ClientEvent::MessageQueued { client_msg_id, to, content } => {
                ClientEvent::MessageQueued {
                    client_msg_id: *client_msg_id,
                    to: *to,
                    content: content.clone(),
                }
            },
            ClientEvent::Ack { msg_id, client_msg_id } => ClientEvent::Ack {
                msg_id: *msg_id,
                client_msg_id: *client_msg_id,
            },
            ClientEvent::SyncBatch(batch) => ClientEvent::SyncBatch(copy_batch(batch)),
            ClientEvent::Rejected { reason } => ClientEvent::Rejected { reason: reason.clone() },
            ClientEvent::SendFailed { client_msg_id } => ClientEvent::SendFailed {
                client_msg_id: *client_msg_id,
            },
        }
    }
}

} // verus!
