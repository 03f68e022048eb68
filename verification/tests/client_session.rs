//! A connection of the client, step by step.

use bytes::Bytes;
use rust_im::client::client::{
    client_loop_step, failure, ClientConfig, ClientError, Effect, Input, LocalState, Outcome,
    Session, DEFAULT_RETRY_MAX_ATTEMPTS, DEFAULT_RETRY_TIMEOUT,
};
use rust_im::client::event::ClientEvent;
use rust_im::client::message::{Msg, MsgAck, SyncResp};
use rust_im::client::outbox::{Nanos, StoreAction};
use rust_im::protocol::frame::{Cmd, Frame};
use rust_im::protocol::payload::{Handshake, HandshakeAck, Payload, SyncReq};

const SECOND: Nanos = 1_000_000_000;

fn session() -> Session {
    let local =
        LocalState::open(&Vec::new(), 0, DEFAULT_RETRY_TIMEOUT, DEFAULT_RETRY_MAX_ATTEMPTS, 0);
    Session::new(local, 1)
}

fn msg(from: u64, client_msg_id: u64, msg_id: u64) -> Msg {
    Msg { from, to: 1, msg_id, client_msg_id, content: Bytes::from_static(b"hi") }
}

fn connected() -> Session {
    let mut s = session();
    s.connect_once("demo");
    let ack = HandshakeAck::accepted(77).encode_frame(1, 0);
    s.connect_once_reply(Some(&ack));
    s
}

#[test]
fn login_is_sent_and_accepted() {
    let mut s = session();
    let login = s.connect_once("demo");
    assert_eq!(login.seq, 1);
    assert_eq!(
        Handshake::decode_frame(&login).unwrap(),
        Handshake { user_id: 1, token: "demo".to_string() }
    );
    let ack = HandshakeAck::accepted(77).encode_frame(1, 0);
    let step = s.connect_once_reply(Some(&ack));
    assert!(step.outcome.is_none());
    assert_eq!(step.effects.len(), 2);
    assert!(matches!(step.effects[0], Effect::Emit(ClientEvent::Connected { session_id: 77 })));
    match &step.effects[1] {
        Effect::Send(frame) => {
            assert_eq!(frame.seq, 2);
            assert_eq!(SyncReq::decode_frame(frame).unwrap(), SyncReq { since: 0 });
        }
        other => panic!("{other:?}"),
    }
}

#[test]
fn refused_login_ends_the_client() {
    let mut s = session();
    s.connect_once("demo");
    let no = HandshakeAck::rejected("bad token").encode_frame(1, 0);
    let step = s.connect_once_reply(Some(&no));
    assert_eq!(step.outcome, Some(Outcome::Rejected("bad token".to_string())));
    let (event, again) = client_loop_step(step.outcome.unwrap());
    assert!(!again);
    assert!(matches!(event, Some(ClientEvent::Rejected { .. })));
}

#[test]
fn missing_answer_ends_the_connection_only() {
    let mut s = session();
    s.connect_once("demo");
    let step = s.connect_once_reply(None);
    assert_eq!(step.outcome, Some(Outcome::Disconnected));
    let (event, again) = client_loop_step(Outcome::Disconnected);
    assert!(again);
    assert!(matches!(event, Some(ClientEvent::Disconnected)));
    let (event, again) = client_loop_step(Outcome::Stopped);
    assert!(!again && event.is_none());
}

/// A message is told as queued before it is sent, confirmed, and then gone.
#[test]
fn message_is_queued_sent_and_confirmed() {
    let mut s = connected();
    assert!(s.message_loop_start(0).is_empty());
    let step = s.message_loop_step(
        Input::Command { client_msg_id: 1, to: 2, content: Bytes::from_static(b"yo") },
        0,
    );
    assert_eq!(step.effects.len(), 2);
    assert!(matches!(
        step.effects[0],
        Effect::Emit(ClientEvent::MessageQueued { client_msg_id: 1, to: 2, .. })
    ));
    match &step.effects[1] {
        Effect::Send(frame) => {
            assert_eq!(frame.seq, 3);
            let sent = Msg::decode_frame(frame).unwrap();
            assert_eq!((sent.from, sent.to, sent.msg_id, sent.client_msg_id), (0, 2, 0, 1));
        }
        other => panic!("{other:?}"),
    }
    assert_eq!(s.next_deadline(), Some(DEFAULT_RETRY_TIMEOUT));
    let ack = MsgAck { msg_id: 900, client_msg_id: 1 }.encode_frame(9, 0);
    let step = s.message_loop_step(Input::Arrived(ack), SECOND);
    assert!(matches!(
        step.effects[0],
        Effect::Store(StoreAction::AckOutgoing { client_msg_id: 1, msg_id: 900, from: 1, to: 2, .. })
    ));
    assert!(matches!(
        step.effects[1],
        Effect::Emit(ClientEvent::Ack { msg_id: 900, client_msg_id: 1 })
    ));
    assert_eq!(s.next_deadline(), None);
}

/// What waits is sent again over the next connection.
#[test]
fn waiting_message_is_sent_again() {
    let mut s = connected();
    s.message_loop_step(
        Input::Command { client_msg_id: 1, to: 2, content: Bytes::from_static(b"yo") },
        0,
    );
    let step = s.message_loop_step(Input::FramesClosed, 0);
    assert_eq!(step.outcome, Some(Outcome::Disconnected));
    s.connect_once("demo");
    let ack = HandshakeAck::accepted(78).encode_frame(1, 0);
    s.connect_once_reply(Some(&ack));
    let effects = s.message_loop_start(SECOND);
    assert_eq!(effects.len(), 1);
    match &effects[0] {
        Effect::Send(frame) => {
            assert_eq!(frame.seq, 3);
            assert_eq!(Msg::decode_frame(frame).unwrap().client_msg_id, 1);
        }
        other => panic!("{other:?}"),
    }
    let step = s.message_loop_step(Input::Timer, SECOND + DEFAULT_RETRY_TIMEOUT);
    assert!(step.effects.iter().any(|e| matches!(e, Effect::Send(_))));
}

/// A message that arrives is stored before it is told, and once.
#[test]
fn arriving_message_is_stored_and_told_once() {
    let mut s = connected();
    let frame = msg(5, 10, 100).encode_frame(4, 0);
    let step = s.message_loop_step(Input::Arrived(frame.clone()), 0);
    let kinds: Vec<u8> = step
        .effects
        .iter()
        .map(|e| match e {
            Effect::Store(_) => 0,
            Effect::Emit(_) => 1,
            Effect::Send(_) => 2,
        })
        .collect();
    assert_eq!(kinds, vec![0, 0, 1]);
    assert!(matches!(step.effects[1], Effect::Store(StoreAction::SetSyncCursor(100))));
    let step = s.message_loop_step(Input::Arrived(frame), 0);
    assert!(!step.effects.iter().any(|e| matches!(e, Effect::Emit(_))));
}

/// A batch is told without what was known.
#[test]
fn batch_is_told_without_duplicates() {
    let mut s = connected();
    s.message_loop_step(Input::Arrived(msg(5, 10, 100).encode_frame(4, 0)), 0);
    let resp = SyncResp { messages: vec![msg(5, 10, 100), msg(5, 11, 101)] };
    let step = s.message_loop_step(Input::Arrived(resp.encode_frame(5, 0)), 0);
    let told: Vec<u64> = step
        .effects
        .iter()
        .filter_map(|e| match e {
            Effect::Emit(ClientEvent::SyncBatch(batch)) => {
                Some(batch.iter().map(|m| m.client_msg_id).collect::<Vec<u64>>())
            }
            _ => None,
        })
        .flatten()
        .collect();
    assert_eq!(told, vec![11]);
}

#[test]
fn client_stops_when_told() {
    let mut s = connected();
    assert_eq!(s.message_loop_step(Input::Shutdown, 0).outcome, Some(Outcome::Stopped));
    assert_eq!(s.message_loop_step(Input::CommandsClosed, 0).outcome, Some(Outcome::Stopped));
    let pong = Frame::new(Cmd::Pong, 1, 0, Bytes::new());
    let step = s.message_loop_step(Input::Arrived(pong), 0);
    assert!(step.effects.is_empty() && step.outcome.is_none());
}

#[test]
fn failed_effects_end_the_connection_or_the_client() {
    assert_eq!(failure(&Effect::Emit(ClientEvent::Disconnected)), Outcome::Stopped);
    assert_eq!(
        failure(&Effect::Send(Frame::new(Cmd::Ping, 0, 0, Bytes::new()))),
        Outcome::Disconnected
    );
    assert_eq!(failure(&Effect::Store(StoreAction::SetSyncCursor(1))), Outcome::Stopped);
}

#[test]
fn defaults_of_a_client() {
    let config = ClientConfig::new("127.0.0.1:9000", 7, "demo");
    assert_eq!(config.server_addr, "127.0.0.1:9000");
    assert_eq!(config.user_id, 7);
    assert_eq!(config.heartbeat_interval, 15 * SECOND);
    assert_eq!(config.retry_timeout, 3 * SECOND);
    assert_eq!(config.retry_max_attempts, 8);
    assert_eq!(config.data_dir, None);
    assert!(!ClientError::Stopped.to_text().is_empty());
}

/// The client's own bodies come back.
#[test]
fn client_bodies_come_back() {
    let m = msg(u64::MAX, 10, 100);
    assert_eq!(Msg::decode(&m.encode()).unwrap(), m);
    let ack = MsgAck { msg_id: 4, client_msg_id: 5 };
    assert_eq!(MsgAck::decode(&ack.encode()).unwrap(), ack);
    assert_eq!(&ack.encode()[..], &[4, 5]);
    let resp = SyncResp { messages: vec![m.clone(), msg(2, 3, 4)] };
    assert_eq!(SyncResp::decode(&resp.encode()).unwrap(), resp);
}

/// There is room to send unless the clock stands at its end.
#[test]
fn room_ends_with_the_clock() {
    let s = connected();
    assert!(s.has_room(0));
    assert!(s.has_room(SECOND));
    assert!(!s.has_room(Nanos::MAX));
}
