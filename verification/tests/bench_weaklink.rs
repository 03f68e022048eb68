//! Weak links and the measurement over one.

use bytes::Bytes;
use rust_im::bench::weaklink::{
    connection_links, report, weak_link, LinkCfg, LinkIn, PumpStep, Reliability,
    ReliabilityAction, ReliabilityEvent, Schedule, Side, WeakLinkArgs, XorShift,
};
use rust_im::client::event::ClientEvent;
use rust_im::client::message::Msg;
use rust_im::protocol::frame::Cmd;

#[test]
fn xorshift_is_deterministic() {
    let mut a = XorShift::new(42);
    let mut b = XorShift::new(42);
    for _ in 0..100 {
        assert_eq!(a.next_u64(), b.next_u64());
    }
}

#[test]
fn xorshift_zero_seed_is_normalized() {
    let mut rng = XorShift::new(0);
    assert_ne!(rng.next_u64(), 0);
}

#[test]
fn xorshift_below_stays_in_range() {
    let mut rng = XorShift::new(7);
    for _ in 0..10_000 {
        assert!(rng.below(1000) < 1000);
    }
    assert_eq!(rng.below(0), 0, "n=0 时不 panic");
}

/// Numbers below a bound come evenly: one of ten is below a tenth of it.
#[test]
fn loss_draw_matches_configured_rate() {
    let mut rng = XorShift::new(123);
    let dropped = (0..100_000).filter(|_| rng.below(1000) < 100).count();
    assert!((9_500..=10_500).contains(&dropped), "{dropped}");
}

const MILLI: u128 = 1_000_000;

const SECOND: u128 = 1_000_000_000;

fn link(loss_permille: u32, delay: u128, jitter: u128) -> LinkCfg {
    LinkCfg { delay, jitter, loss_permille, seed: 5 }
}

#[test]
fn clear_link_loses_nothing() {
    let mut link = LinkIn::new(link(0, 0, 0));
    for i in 0..100u128 {
        assert_eq!(link.pump_in(Cmd::Msg, i), Some(i));
    }
    assert_eq!(link.dropped(), 0);
    assert_eq!(link.msg_seen(), 100);
}

#[test]
fn black_hole_swallows_everything() {
    let mut link = LinkIn::new(link(1000, 0, 0));
    for i in 0..100u128 {
        assert_eq!(link.pump_in(Cmd::Ping, i), None);
    }
    assert_eq!(link.dropped(), 100);
    assert_eq!(link.msg_seen(), 0);
}

#[test]
fn delay_is_between_its_bounds() {
    let mut link = LinkIn::new(link(0, 10 * MILLI, 5 * MILLI));
    for i in 0..200u128 {
        let ready = link.pump_in(Cmd::Msg, i).unwrap();
        assert!(ready >= i + 10 * MILLI && ready < i + 15 * MILLI);
    }
}

/// Every connection has links of its own, which are the same in every run.
#[test]
fn connections_have_links_of_their_own() {
    let base = link(100, 0, 0);
    let (up1, down1) = connection_links(base, base, 1);
    let (up2, _) = connection_links(base, base, 2);
    assert_eq!(up1.seed, 5 ^ 2);
    assert_eq!(down1.seed, 5 ^ 2 ^ 1);
    assert_ne!(up1.seed, up2.seed);
    assert_eq!(connection_links(base, base, 1).0, up1);
}

/// What is due first goes first; what is due together goes in order.
#[test]
fn schedule_hands_out_in_order() {
    let mut s: Schedule<&str> = Schedule::new();
    assert_eq!(s.pump_out(true), PumpStep::Receive);
    assert_eq!(s.pump_out(false), PumpStep::Done);
    s.push(20, "late");
    s.push(10, "early");
    s.push(20, "later");
    assert_eq!(s.next_due(), Some(10));
    assert_eq!(s.pop(), Some("early"));
    assert_eq!(s.pop(), Some("late"));
    assert_eq!(s.pop(), Some("later"));
    assert_eq!(s.pop(), None);
}

fn args(messages: usize, loss_permille: u32) -> WeakLinkArgs {
    WeakLinkArgs {
        messages,
        loss_permille,
        rtt_ms: 80,
        jitter_ms: 10,
        retry_timeout_ms: 500,
        retry_max_attempts: 8,
        deadline_secs: 60,
        payload_bytes: 16,
        seed: 42,
    }
}

#[test]
fn settings_are_checked() {
    assert!(weak_link(&args(0, 0)).is_err());
    assert!(weak_link(&args(1, 1001)).is_err());
    let (up, down) = weak_link(&args(1, 100)).unwrap();
    assert_eq!(up.delay, 40 * MILLI);
    assert_eq!(up.jitter, 10 * MILLI);
    assert_eq!(up.seed, 42);
    assert_eq!(down.seed, 42 ^ 0x5DEE_CE66);
}

fn queued(id: u64) -> ReliabilityEvent {
    ReliabilityEvent::Told(
        Side::Alice,
        ClientEvent::MessageQueued { client_msg_id: id, to: 2, content: Bytes::new() },
    )
}

fn received(id: u64) -> ReliabilityEvent {
    ReliabilityEvent::Told(
        Side::Bob,
        ClientEvent::Message(Msg {
            from: 1,
            to: 2,
            msg_id: id + 100,
            client_msg_id: id,
            content: Bytes::new(),
        }),
    )
}

fn confirmed(id: u64) -> ReliabilityEvent {
    ReliabilityEvent::Told(Side::Alice, ClientEvent::Ack { msg_id: id + 100, client_msg_id: id })
}

fn connected(side: Side) -> ReliabilityEvent {
    ReliabilityEvent::Told(side, ClientEvent::Connected { session_id: 1 })
}

/// A measurement from login to report.
#[test]
fn measurement_of_two_messages() {
    let settings = args(2, 100);
    let (mut m, first) = Reliability::run_reliability(&settings, 0);
    assert!(matches!(first, ReliabilityAction::Wait));
    let action = m.run_reliability_step(connected(Side::Alice), SECOND);
    assert!(matches!(action, ReliabilityAction::Wait));
    let action = m.run_reliability_step(connected(Side::Bob), SECOND);
    assert!(matches!(action, ReliabilityAction::Send));
    let action = m.run_reliability_step(ReliabilityEvent::Sent(true), SECOND);
    assert!(matches!(action, ReliabilityAction::Send));
    let action = m.run_reliability_step(ReliabilityEvent::Sent(true), SECOND);
    assert!(matches!(action, ReliabilityAction::WaitUntil(t) if t == 61 * SECOND));
    m.run_reliability_step(queued(1), SECOND);
    m.run_reliability_step(queued(2), SECOND);
    m.run_reliability_step(received(1), SECOND + 200);
    m.run_reliability_step(received(1), SECOND + 300);
    m.run_reliability_step(received(9), SECOND + 300);
    m.run_reliability_step(confirmed(1), 2 * SECOND);
    let failed = ReliabilityEvent::Told(Side::Alice, ClientEvent::SendFailed { client_msg_id: 2 });
    let action = m.run_reliability_step(failed, 3 * SECOND);
    assert!(matches!(action, ReliabilityAction::WaitUntil(t) if t == 8 * SECOND));
    let action = m.run_reliability_step(ReliabilityEvent::Silence, 8 * SECOND);
    assert!(matches!(action, ReliabilityAction::Finish));
    let outcome = m.outcome(5);
    assert_eq!((outcome.sent, outcome.acked, outcome.failed, outcome.received), (2, 1, 1, 1));
    assert_eq!(outcome.latency.count(), 1);
    let lines = report(&settings, &outcome);
    assert_eq!(
        lines[1],
        "链路            : RTT 80ms（每方向 40ms）+ 每方向丢包 100‰ + 抖动 0..10ms"
    );
    assert_eq!(lines[5], "接收端实收      : 1 条（去重后口径）→ 到达率 500‰（50.0%）");
    assert_eq!(
        lines[7],
        "对账            : 上行 Msg 帧 5 个（含重传，每条消息平均尝试 2.50 次）"
    );
    let mut outcome = outcome;
    outcome.sent = 20;
    outcome.upstream_attempts = 21;
    let lines = report(&settings, &outcome);
    assert_eq!(
        lines[7],
        "对账            : 上行 Msg 帧 21 个（含重传，每条消息平均尝试 1.05 次）"
    );
}

/// Clients that do not log in, or go away, end the measurement.
#[test]
fn measurement_fails_without_clients() {
    let settings = args(2, 100);
    let (mut m, _) = Reliability::run_reliability(&settings, 0);
    match m.run_reliability_step(connected(Side::Bob), 21 * SECOND) {
        ReliabilityAction::Fail(text) => {
            assert_eq!(text, "20s 内未完成双端握手（丢包 100‰ 下重连应能成功）");
        }
        other => panic!("{other:?}"),
    }
    let (mut m, _) = Reliability::run_reliability(&settings, 0);
    match m.run_reliability_step(ReliabilityEvent::Ended(Side::Alice), 0) {
        ReliabilityAction::Fail(text) => assert_eq!(text, "alice 客户端意外退出"),
        other => panic!("{other:?}"),
    }
}
