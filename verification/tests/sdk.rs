//! What other languages see of the client.

use bytes::Bytes;
use rust_im::client::event::ClientEvent;
use rust_im::client::message::Msg;
use rust_im::sdk::error::{
    error_string, ERR_HANDSHAKE_REJECTED, ERR_INTERNAL, ERR_INVALID_ARG, ERR_POLL_WITH_CALLBACK,
    ERR_STOPPED, ERR_TIMEOUT, OK,
};
use rust_im::sdk::events::{
    alloc_event, normalize, sdk_config, EventQueue, ImSdkEvent, Received, EVENT_ACK,
    EVENT_CONNECTED, EVENT_DISCONNECTED, EVENT_MESSAGE, EVENT_MESSAGE_QUEUED, EVENT_REJECTED,
    EVENT_SEND_FAILED,
};
use rust_im::sdk::ffi::{check_poll, check_send, client_create, poll_code, send_code, str_from_c};
use rust_im::sdk::jni::{
    build_java_event, created_exception, from_java_int, from_java_long, java_long, native_create,
    native_poll, native_send, poll_exception, send_exception, JavaBytes, JavaCallback, JavaText,
};
use rust_im::sdk::native::{TypedSdkClient, WaitStep};
use rust_im::sdk::SDK_VERSION;

fn msg(id: u64, content: &'static [u8]) -> Msg {
    Msg { from: 1, to: 2, msg_id: id, client_msg_id: id + 10, content: Bytes::from_static(content) }
}

fn event(type_: i32, session_id: u64) -> ImSdkEvent {
    ImSdkEvent {
        type_,
        session_id,
        msg_id: 0,
        client_msg_id: 0,
        from: 0,
        to: 0,
        data: Vec::new(),
    }
}

#[test]
fn every_defined_code_has_a_string() {
    for code in [
        OK,
        ERR_INVALID_ARG,
        ERR_STOPPED,
        ERR_TIMEOUT,
        ERR_POLL_WITH_CALLBACK,
        ERR_INTERNAL,
        ERR_HANDSHAKE_REJECTED,
    ] {
        assert!(!error_string(code).is_empty());
    }
}

#[test]
fn unknown_codes_fall_back() {
    assert_eq!(error_string(ERR_HANDSHAKE_REJECTED), "handshake rejected by server");
    assert_eq!(error_string(7), "unknown error code");
    assert_eq!(error_string(-1), "unknown error code");
    assert_eq!(error_string(i32::MAX), "unknown error code");
}

#[test]
fn sdk_version_exposed() {
    assert!(!SDK_VERSION.is_empty());
}

/// What bytes from C stand for; nothing is not looked into.
#[test]
fn invalid_arguments_are_rejected_not_dereferenced() {
    assert!(client_create(None, 1, None, None).is_none());
    assert_eq!(check_send(true, false, 1), Err(ERR_INVALID_ARG));
    assert_eq!(check_poll(false, true), Err(ERR_INVALID_ARG));
    assert_eq!(check_poll(true, true), Err(ERR_INVALID_ARG));
}

#[test]
fn arguments_from_c() {
    assert_eq!(str_from_c(Some("你好".as_bytes())), Some("你好".to_string()));
    assert_eq!(str_from_c(Some(&[0xFF])), None);
    assert_eq!(str_from_c(None), None);
    let config = client_create(Some(b"host:1"), 5, Some(b"demo"), Some(&[0xFF])).unwrap();
    assert_eq!((config.server_addr.as_str(), config.user_id), ("host:1", 5));
    assert_eq!(config.data_dir, None);
    assert_eq!(sdk_config("h", 1, "t", Some("dir")).data_dir, Some("dir".to_string()));
    assert_eq!(check_send(false, true, 1), Err(ERR_INVALID_ARG));
    assert_eq!(check_send(false, true, 0), Ok(()));
    assert_eq!(send_code(Err(ERR_STOPPED)), ERR_STOPPED);
    assert_eq!(send_code(Ok(())), OK);
    assert_eq!(poll_code(&Ok(None)), ERR_TIMEOUT);
    assert_eq!(poll_code(&Ok(Some(event(EVENT_ACK, 0)))), OK);
    assert_eq!(poll_code(&Err(ERR_STOPPED)), ERR_STOPPED);
}

/// The events in one shape.
#[test]
fn events_have_one_shape() {
    let e = alloc_event(ClientEvent::Connected { session_id: 9 });
    assert_eq!(e, event(EVENT_CONNECTED, 9));
    assert_eq!(alloc_event(ClientEvent::Disconnected), event(EVENT_DISCONNECTED, 0));
    let e = alloc_event(ClientEvent::Message(msg(3, b"hi")));
    assert_eq!((e.type_, e.from, e.to, e.msg_id, e.client_msg_id), (EVENT_MESSAGE, 1, 2, 3, 13));
    assert_eq!(e.data, b"hi");
    let e = alloc_event(ClientEvent::MessageQueued {
        client_msg_id: 4,
        to: 5,
        content: Bytes::from_static(b"yo"),
    });
    assert_eq!((e.type_, e.client_msg_id, e.to), (EVENT_MESSAGE_QUEUED, 4, 5));
    assert_eq!(e.data, b"yo");
    let e = alloc_event(ClientEvent::Ack { msg_id: 6, client_msg_id: 7 });
    assert_eq!((e.type_, e.msg_id, e.client_msg_id), (EVENT_ACK, 6, 7));
    let e = alloc_event(ClientEvent::Rejected { reason: "拒绝".to_string() });
    assert_eq!((e.type_, e.data), (EVENT_REJECTED, "拒绝".as_bytes().to_vec()));
    let e = alloc_event(ClientEvent::SendFailed { client_msg_id: 8 });
    assert_eq!((e.type_, e.client_msg_id), (EVENT_SEND_FAILED, 8));
}

/// A batch is handed out message by message, in order.
#[test]
fn batch_is_handed_out_in_order() {
    let batch = ClientEvent::SyncBatch(vec![msg(1, b"first"), msg(2, b"second")]);
    assert_eq!(normalize(batch).len(), 2);
    let mut queue = EventQueue::new(false);
    assert_eq!(queue.poll_pending(), Ok(None));
    let batch = ClientEvent::SyncBatch(vec![msg(1, b"first"), msg(2, b"second")]);
    let first = queue.poll_received(Received::Event(batch)).unwrap().unwrap();
    assert_eq!(first.data, b"first");
    let second = queue.poll_pending().unwrap().unwrap();
    assert_eq!(second.data, b"second");
    assert_eq!(queue.poll_pending(), Ok(None));
    assert_eq!(queue.poll_received(Received::TimedOut), Ok(None));
    assert_eq!(queue.poll_received(Received::Closed), Err(ERR_STOPPED));
    assert_eq!(EventQueue::new(true).poll_pending(), Err(ERR_POLL_WITH_CALLBACK));
}

#[test]
fn typed_flow_connects_then_sends() {
    let client = TypedSdkClient::new("client");
    match client.wait_connected(Ok(Some(event(EVENT_CONNECTED, 42)))) {
        WaitStep::Connected(alice) => {
            assert!(alice.session_id() > 0);
            assert_eq!(alice.session_id(), 42);
            assert_eq!(alice.into_inner(), "client");
        }
        _ => panic!("the login was accepted"),
    }
}

#[test]
fn rejected_handshake_returns_client_for_destroy() {
    let client = TypedSdkClient::new("client");
    match client.wait_connected(Ok(Some(event(EVENT_REJECTED, 0)))) {
        WaitStep::Failed(client, code) => {
            assert_eq!(code, ERR_HANDSHAKE_REJECTED);
            assert_eq!(client.into_inner(), "client");
        }
        _ => panic!("the login was refused"),
    }
}

#[test]
fn timeout_hands_back_live_client() {
    let client = match TypedSdkClient::new("client").wait_connected(Ok(None)) {
        WaitStep::Waiting(client) => client,
        _ => panic!("nothing came"),
    };
    let budget = 300_000_000;
    assert_eq!(TypedSdkClient::<&str, _>::wait_budget(budget, 100), Some(budget - 100));
    assert_eq!(TypedSdkClient::<&str, _>::wait_budget(budget, budget), None);
    let (client, code) = client.give_up();
    assert_eq!(code, ERR_TIMEOUT);
    assert_eq!(*client.inner(), "client");
}

#[test]
fn other_events_go_on_waiting() {
    let client = TypedSdkClient::new(1u8);
    let client = match client.wait_connected(Ok(Some(event(EVENT_ACK, 0)))) {
        WaitStep::Waiting(client) => client,
        _ => panic!("a confirmation says nothing of the login"),
    };
    match client.wait_connected(Err(ERR_STOPPED)) {
        WaitStep::Failed(_, code) => assert_eq!(code, ERR_STOPPED),
        _ => panic!("nothing will come"),
    }
}

fn text(s: &str) -> Option<String> {
    Some(s.to_string())
}

#[test]
fn java_arguments_are_checked() {
    let err = |addr: Option<String>, token: Option<String>, dir: JavaText, cb: JavaCallback| {
        native_create(addr, 1, token, dir, cb).unwrap_err()
    };
    let e = err(None, text("t"), JavaText::Null, JavaCallback::Null);
    assert_eq!(e.class, "java/lang/IllegalArgumentException");
    assert_eq!(e.message, "invalid string argument");
    let e = err(text(""), text("t"), JavaText::Null, JavaCallback::Null);
    assert_eq!(e.message, "addr/token must not be empty");
    let e = err(text("a\0"), text("t"), JavaText::Invalid, JavaCallback::Null);
    assert_eq!(e.message, "dataDir is not a String");
    let e = err(text("a\0"), text("t"), JavaText::Null, JavaCallback::NoMachine);
    assert_eq!((e.class, e.message.as_str()), ("java/lang/RuntimeException", "get_java_vm failed"));
    let e = err(text("a\0"), text("t"), JavaText::Null, JavaCallback::NoReference);
    assert_eq!(e.message, "new_global_ref failed");
    let e = err(text("a\0"), text("t"), JavaText::Null, JavaCallback::Ready);
    assert_eq!(e.message, "addr contains NUL");
    let e = err(text("a"), text("t\0"), JavaText::Null, JavaCallback::Ready);
    assert_eq!(e.message, "token contains NUL");
    let call = native_create(
        text("a"),
        -1,
        text("t"),
        JavaText::Text("d\0".to_string()),
        JavaCallback::Ready,
    )
    .unwrap();
    assert_eq!((call.user_id, call.data_dir, call.callback), (0, None, true));
    assert!(created_exception(true).is_none());
    assert_eq!(created_exception(false).unwrap().message, "im_sdk_client_create failed");
}

#[test]
fn java_sends_and_polls() {
    assert_eq!(native_send(false, 1, JavaBytes::Null).unwrap_err().message, "client already closed");
    assert_eq!(native_send(true, -1, JavaBytes::Null).unwrap(), (0, Vec::new()));
    assert_eq!(native_send(true, 3, JavaBytes::Bytes(vec![1])).unwrap(), (3, vec![1]));
    assert_eq!(
        native_send(true, 3, JavaBytes::Invalid).unwrap_err().message,
        "convert_byte_array failed"
    );
    assert_eq!(native_poll(true, -5).unwrap(), 0);
    assert_eq!(native_poll(true, 5).unwrap(), 5);
    assert_eq!(native_poll(false, 5).unwrap_err().class, "java/lang/IllegalStateException");
    assert!(send_exception(OK).is_none());
    assert_eq!(
        send_exception(ERR_STOPPED).unwrap().message,
        "send failed: client stopped (rejected or destroyed)"
    );
    assert!(poll_exception(ERR_TIMEOUT).is_none());
    assert!(poll_exception(ERR_STOPPED).unwrap().message.starts_with("poll failed: "));
    assert_eq!(java_long(u64::MAX), 0);
    assert_eq!(java_long(5), 5);
    assert_eq!(from_java_long(-1), 0);
    assert_eq!(from_java_int(7), 7);
    let e = build_java_event(&event(EVENT_CONNECTED, 9));
    assert_eq!((e.type_, e.session_id), (EVENT_CONNECTED, 9));
}
