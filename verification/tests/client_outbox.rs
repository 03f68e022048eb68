//! Messages that wait for their confirmation.

use bytes::Bytes;
use rust_im::client::outbox::{
    backoff_delay, Nanos, Outbox, Pending, StoreAction, RETRY_DELAY_CAP,
};

const MILLI: Nanos = 1_000_000;

const SECOND: Nanos = 1_000_000_000;

fn outbox(rto_ms: u128, max_attempts: u32) -> Outbox {
    Outbox::load(&Vec::new(), rto_ms * MILLI, max_attempts, 0)
}

#[test]
fn ack_confirms_and_persists_message() {
    let mut outbox = outbox(100, 3);
    let msg = outbox.enqueue(1, 2, Bytes::from_static(b"hi"), 0);
    assert_eq!(outbox.len(), 1);
    assert_eq!(msg.client_msg_id, 1);

    let stored = outbox.ack(msg.client_msg_id, 777, 1);
    assert!(outbox.is_empty());
    assert_eq!(
        stored,
        Some(StoreAction::AckOutgoing {
            client_msg_id: msg.client_msg_id,
            msg_id: 777,
            from: 1,
            to: 2,
            content: Bytes::from_static(b"hi"),
        })
    );
}

#[test]
fn duplicate_ack_is_harmless() {
    let mut outbox = outbox(100, 3);
    let msg = outbox.enqueue(1, 2, Bytes::from_static(b"once"), 0);
    assert!(outbox.ack(msg.client_msg_id, 100, 1).is_some());
    assert_eq!(outbox.ack(msg.client_msg_id, 100, 1), None);
    assert!(outbox.is_empty());
}

#[test]
fn due_resends_then_reschedules_with_backoff() {
    let mut outbox = outbox(20, 5);
    let msg = outbox.enqueue(1, 2, Bytes::from_static(b"retry me"), 0);

    let now = 30 * MILLI;
    let due = outbox.due(now);
    assert_eq!(due.resends.len(), 1);
    assert!(due.failed.is_empty());
    assert_eq!(due.resends[0].client_msg_id, msg.client_msg_id);
    assert_eq!(due.resends[0].content, Bytes::from_static(b"retry me"));
    assert_eq!(outbox.len(), 1);

    let next = outbox.next_deadline().expect("it still waits");
    assert!(next > now + 20 * MILLI, "{next}");
    assert_eq!(next, now + 40 * MILLI);
}

#[test]
fn gives_up_after_max_attempts() {
    let mut outbox = outbox(5, 2);
    let msg = outbox.enqueue(1, 2, Bytes::from_static(b"hopeless"), 0);

    let due = outbox.due(10 * MILLI);
    assert_eq!(due.resends.len(), 1);
    assert!(due.failed.is_empty());

    let due = outbox.due(30 * MILLI);
    assert!(due.resends.is_empty());
    assert_eq!(due.failed, vec![msg.client_msg_id]);
    assert!(outbox.is_empty());
    assert_eq!(due.actions, vec![StoreAction::DropOutgoing { client_msg_id: 1 }]);
}

#[test]
fn reopen_restores_inflight() {
    let kept = vec![Pending {
        client_msg_id: 4,
        to: 2,
        content: Bytes::from_static(b"crash survivor"),
        attempts: 1,
    }];
    let mut outbox = Outbox::load(&kept, 50 * MILLI, 3, 0);
    assert_eq!(outbox.len(), 1);
    let resends = outbox.resends(0);
    assert_eq!(resends[0].client_msg_id, 4);
    assert_eq!(resends[0].content, Bytes::from_static(b"crash survivor"));
}

#[test]
fn backoff_delay_is_capped() {
    let rto = 5 * SECOND;
    assert_eq!(backoff_delay(rto, 1), 5 * SECOND);
    assert_eq!(backoff_delay(rto, 2), 10 * SECOND);
    assert_eq!(backoff_delay(rto, 30), RETRY_DELAY_CAP);
    assert_eq!(backoff_delay(100_000, 18), 100_000 << 17);
    assert_eq!(backoff_delay(100_000, 30), RETRY_DELAY_CAP);
    assert_eq!(backoff_delay(0, u32::MAX), 0);
    assert_eq!(backoff_delay(rto, 0), 5 * SECOND);
}

/// A message that is not due stays, and one that was sent again is not due at once.
#[test]
fn nothing_is_due_early_or_twice() {
    let mut outbox = outbox(20, 5);
    outbox.enqueue(1, 2, Bytes::new(), 0);
    assert!(outbox.due(19 * MILLI).resends.is_empty());
    assert_eq!(outbox.due(20 * MILLI).resends.len(), 1);
    assert!(outbox.due(20 * MILLI).resends.is_empty());
}

/// A store that does what it is told holds what a restart needs.
#[test]
fn told_store_holds_what_waits() {
    let mut outbox = outbox(20, 2);
    let mut kept: std::collections::BTreeMap<u64, u32> = std::collections::BTreeMap::new();
    for id in 1..=3u64 {
        outbox.enqueue(id, 2, Bytes::from_static(b"x"), u128::from(id) * 5 * MILLI);
        kept.insert(id, 1);
    }
    let mut tell = |action: StoreAction| match action {
        StoreAction::AckOutgoing { client_msg_id, .. }
        | StoreAction::DropOutgoing { client_msg_id } => {
            kept.remove(&client_msg_id);
        }
        StoreAction::SetAttempts { client_msg_id, attempts } => {
            kept.insert(client_msg_id, attempts);
        }
        other => panic!("{other:?}"),
    };
    for action in outbox.due(26 * MILLI).actions {
        tell(action);
    }
    for action in outbox.due(100 * MILLI).actions {
        tell(action);
    }
    tell(outbox.ack(3, 30, 1).unwrap());
    assert_eq!(outbox.len(), 1);
    assert_eq!(kept.into_iter().collect::<Vec<(u64, u32)>>(), vec![(2, 2)]);
}
