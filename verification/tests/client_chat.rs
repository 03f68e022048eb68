//! Conversations as the user sees them.

use bytes::Bytes;
use rust_im::client::chat::{ChatState, SendStatus};
use rust_im::client::event::ClientEvent;
use rust_im::client::message::Msg;

fn incoming(from: u64, client_msg_id: u64, msg_id: u64, text: &str) -> ClientEvent {
    ClientEvent::Message(Msg {
        from,
        to: 9,
        msg_id,
        client_msg_id,
        content: Bytes::copy_from_slice(text.as_bytes()),
    })
}

#[test]
fn outgoing_lifecycle_sending_to_delivered() {
    let mut state = ChatState::new();
    state.on_event(
        &ClientEvent::MessageQueued {
            client_msg_id: 1,
            to: 7,
            content: Bytes::from_static(b"hello"),
        },
        9,
    );
    let conversation = state.conversation(7).expect("会话已建立");
    assert_eq!(conversation.messages.len(), 1);
    assert_eq!(conversation.messages[0].status, SendStatus::Sending);
    assert_eq!(conversation.messages[0].msg_id, None);

    state.on_event(
        &ClientEvent::Ack {
            msg_id: 500,
            client_msg_id: 1,
        },
        9,
    );
    let conversation = state.conversation(7).expect("会话已建立");
    assert_eq!(conversation.messages[0].status, SendStatus::Delivered);
    assert_eq!(conversation.messages[0].msg_id, Some(500));
}

#[test]
fn send_failed_marks_failed() {
    let mut state = ChatState::new();
    state.on_event(
        &ClientEvent::MessageQueued {
            client_msg_id: 3,
            to: 2,
            content: Bytes::from_static(b"try"),
        },
        9,
    );
    state.on_event(&ClientEvent::SendFailed { client_msg_id: 3 }, 9);
    assert_eq!(
        state.conversation(2).unwrap().messages[0].status,
        SendStatus::Failed
    );
}

#[test]
fn incoming_unread_and_idempotent() {
    let mut state = ChatState::new();
    state.on_event(&incoming(7, 100, 1000, "hi"), 9);
    state.on_event(&incoming(7, 100, 1000, "hi"), 9);
    let conversation = state.conversation(7).unwrap();
    assert_eq!(conversation.messages.len(), 1, "重复消息只记一次");
    assert_eq!(conversation.unread, 1, "未读不虚增");

    state.mark_read(7);
    assert_eq!(state.conversation(7).unwrap().unread, 0);

    state.on_event(&incoming(8, 100, 1001, "yo"), 9);
    assert_eq!(state.peers(), vec![7, 8], "会话按 peer 升序");
    assert_eq!(state.conversation(8).unwrap().unread, 1);
}

#[test]
fn sync_batch_and_connection_state() {
    let mut state = ChatState::new();
    assert!(!state.is_connected());
    state.on_event(&ClientEvent::Connected { session_id: 42 }, 9);
    assert!(state.is_connected());

    let batch = ClientEvent::SyncBatch(vec![
        Msg {
            from: 7,
            to: 9,
            msg_id: 10,
            client_msg_id: 1,
            content: Bytes::from_static(b"a"),
        },
        Msg {
            from: 7,
            to: 9,
            msg_id: 11,
            client_msg_id: 2,
            content: Bytes::from_static(b"b"),
        },
    ]);
    state.on_event(&batch, 9);
    assert_eq!(state.conversation(7).unwrap().messages.len(), 2);

    state.on_event(&ClientEvent::Disconnected, 9);
    assert!(!state.is_connected());
}

/// A second confirmation changes nothing, and one for a message that is not there
/// changes nothing either.
#[test]
fn confirmation_again_is_harmless() {
    let mut state = ChatState::new();
    state.on_event(
        &ClientEvent::MessageQueued { client_msg_id: 1, to: 7, content: Bytes::new() },
        9,
    );
    state.on_event(&ClientEvent::Ack { msg_id: 5, client_msg_id: 1 }, 9);
    state.on_event(&ClientEvent::Ack { msg_id: 5, client_msg_id: 1 }, 9);
    state.on_event(&ClientEvent::Ack { msg_id: 6, client_msg_id: 2 }, 9);
    let messages = &state.conversation(7).unwrap().messages;
    assert_eq!(messages.len(), 1);
    assert_eq!(messages[0].msg_id, Some(5));
    assert!(state.conversation(8).is_none());
}
